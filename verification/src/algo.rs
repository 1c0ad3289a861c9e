//! Sorting an almost sorted sequence by insertion, recording the moves so
//! that the original order can be restored.
use crate::sorting::sorted_u64;
use vstd::prelude::*;

verus! {

/// How many elements of `s` exceed `x`.
pub open spec fn count_greater(s: Seq<u64>, x: u64) -> nat
    decreases s.len(),
{
    if s.len() == 0 {
        0
    } else {
        count_greater(s.drop_last(), x) + if s.last() > x {
            1nat
        } else {
            0nat
        }
    }
}

/// How far element `i` travels when inserted into the sorted prefix: the
/// number of earlier elements that exceed it.
pub open spec fn bubble_at(s: Seq<u64>, i: int) -> nat {
    count_greater(s.take(i), s[i])
}

/// The moves from position `i` on, with `adv` elements already passed over
/// in place: each insertion is recorded as the count of elements passed
/// before it and its distance; a final run of elements in place is recorded
/// with distance zero.
pub open spec fn moves_from(s: Seq<u64>, i: int, adv: nat) -> Seq<(usize, usize)>
    decreases s.len() - i,
{
    if i >= s.len() {
        if adv > 0 {
            seq![(adv as usize, 0usize)]
        } else {
            Seq::empty()
        }
    } else if bubble_at(s, i) == 0 {
        moves_from(s, i + 1, adv + 1)
    } else {
        seq![(adv as usize, bubble_at(s, i) as usize)] + moves_from(s, i + 1, 0)
    }
}

/// The moves that sort `s`.
pub open spec fn permutation_moves(s: Seq<u64>) -> Seq<(usize, usize)> {
    moves_from(s, 1, 0)
}

/// The scan position after replaying `ms` from position `p`.
pub open spec fn move_end(ms: Seq<(usize, usize)>, p: int) -> int
    decreases ms.len(),
{
    if ms.len() == 0 {
        p
    } else {
        move_end(ms.drop_last(), p) + ms.last().0 + if ms.last().1 > 0 {
            1int
        } else {
            0int
        }
    }
}

/// The insertions that `ms` records, as (position, distance) pairs.
pub open spec fn move_actions(ms: Seq<(usize, usize)>, p: int) -> Seq<(int, int)>
    decreases ms.len(),
{
    if ms.len() == 0 {
        Seq::empty()
    } else {
        let prev = move_actions(ms.drop_last(), p);
        let (a, b) = ms.last();
        if b > 0 {
            prev.push((move_end(ms.drop_last(), p) + a, b as int))
        } else {
            prev
        }
    }
}

/// The element at `i` moved down to `i - b`, those between moving up.
pub open spec fn insert_down(s: Seq<u64>, i: int, b: int) -> Seq<u64> {
    s.take(i - b) + seq![s[i]] + s.subrange(i - b, i) + s.skip(i + 1)
}

/// The element at `i - b` moved up to `i`, those between moving down: the
/// slice `s[i - b ..= i]` rotated left by one.
pub open spec fn rotate_up(s: Seq<u64>, i: int, b: int) -> Seq<u64> {
    s.take(i - b) + s.subrange(i - b + 1, i + 1) + seq![s[i - b]] + s.skip(i + 1)
}

/// The insertions applied in order.
pub open spec fn apply_actions(s: Seq<u64>, acts: Seq<(int, int)>) -> Seq<u64>
    decreases acts.len(),
{
    if acts.len() == 0 {
        s
    } else {
        insert_down(apply_actions(s, acts.drop_last()), acts.last().0, acts.last().1)
    }
}

/// The insertions undone, last first.
pub open spec fn undo_actions(s: Seq<u64>, acts: Seq<(int, int)>) -> Seq<u64>
    decreases acts.len(),
{
    if acts.len() == 0 {
        s
    } else {
        undo_actions(rotate_up(s, acts.last().0, acts.last().1), acts.drop_last())
    }
}

/// Each insertion stays inside a sequence of length `n`.
pub open spec fn actions_fit(acts: Seq<(int, int)>, n: int) -> bool {
    forall|k: int| 0 <= k < acts.len() ==> 0 <= #[trigger] acts[k].1 <= acts[k].0 < n
}

/// The insertions of elements `1..k` that move.
pub open spec fn bubble_actions(s: Seq<u64>, k: int) -> Seq<(int, int)>
    decreases k,
{
    if k <= 1 {
        Seq::empty()
    } else if bubble_at(s, k - 1) > 0 {
        bubble_actions(s, k - 1).push((k - 1, bubble_at(s, k - 1) as int))
    } else {
        bubble_actions(s, k - 1)
    }
}

pub proof fn lemma_count_greater_concat(a: Seq<u64>, b: Seq<u64>, x: u64)
    ensures
        count_greater(a + b, x) == count_greater(a, x) + count_greater(b, x),
    decreases b.len(),
{
    if b.len() == 0 {
        assert(a + b == a);
    } else {
        assert((a + b).drop_last() == a + b.drop_last());
        lemma_count_greater_concat(a, b.drop_last(), x);
    }
}

pub proof fn lemma_count_greater_push(s: Seq<u64>, x: u64, y: u64)
    ensures
        count_greater(s.push(x), y) == count_greater(s, y) + if x > y { 1int } else { 0int },
{
    assert(s.push(x).drop_last() == s);
}

pub proof fn lemma_count_greater_none(s: Seq<u64>, x: u64)
    requires
        forall|k: int| 0 <= k < s.len() ==> s[k] <= x,
    ensures
        count_greater(s, x) == 0,
    decreases s.len(),
{
    if s.len() > 0 {
        lemma_count_greater_none(s.drop_last(), x);
    }
}

pub proof fn lemma_count_greater_all(s: Seq<u64>, x: u64)
    requires
        forall|k: int| 0 <= k < s.len() ==> s[k] > x,
    ensures
        count_greater(s, x) == s.len(),
    decreases s.len(),
{
    if s.len() > 0 {
        lemma_count_greater_all(s.drop_last(), x);
    }
}

pub proof fn lemma_count_greater_le(s: Seq<u64>, x: u64)
    ensures
        count_greater(s, x) <= s.len(),
    decreases s.len(),
{
    if s.len() > 0 {
        lemma_count_greater_le(s.drop_last(), x);
    }
}

/// Rotating up undoes an insertion.
pub proof fn lemma_rotate_undoes_insert(s: Seq<u64>, i: int, b: int)
    requires
        0 <= b <= i < s.len(),
    ensures
        rotate_up(insert_down(s, i, b), i, b) == s,
        insert_down(s, i, b).len() == s.len(),
{
    let t = insert_down(s, i, b);
    assert(t.len() == s.len());
    assert(rotate_up(t, i, b) =~= s);
}

/// Rotating a slice keeps the length and the values.
proof fn lemma_rotate_keeps(s: Seq<u64>, i: int, b: int)
    requires
        0 <= b <= i < s.len(),
    ensures
        rotate_up(s, i, b).len() == s.len(),
        rotate_up(s, i, b).to_multiset() == s.to_multiset(),
{
    broadcast use vstd::seq_lib::lemma_multiset_commutative;

    let a = s.take(i - b);
    let x = seq![s[i - b]];
    let m = s.subrange(i - b + 1, i + 1);
    let c = s.skip(i + 1);
    assert(s =~= a + x + m + c);
    assert(rotate_up(s, i, b) =~= a + m + x + c);
    assert((a + x + m + c).to_multiset() =~= a.to_multiset().add(x.to_multiset()).add(m.to_multiset()).add(
        c.to_multiset(),
    ));
    assert((a + m + x + c).to_multiset() =~= a.to_multiset().add(m.to_multiset()).add(x.to_multiset()).add(
        c.to_multiset(),
    ));
}

/// Undoing insertions that fit keeps the length and the values: what
/// `restore_permutation` gives is a permutation of what it was given.
pub proof fn law_undo_keeps(s: Seq<u64>, acts: Seq<(int, int)>)
    requires
        actions_fit(acts, s.len() as int),
    ensures
        undo_actions(s, acts).len() == s.len(),
        undo_actions(s, acts).to_multiset() == s.to_multiset(),
    decreases acts.len(),
{
    if acts.len() > 0 {
        let (i, b) = acts.last();
        assert(acts[acts.len() - 1] == acts.last());
        lemma_rotate_keeps(s, i, b);
        let r = rotate_up(s, i, b);
        let prev = acts.drop_last();
        assert(actions_fit(prev, r.len() as int)) by {
            assert forall|k: int| 0 <= k < prev.len() implies 0 <= #[trigger] prev[k].1 <= prev[k].0 < r.len() by {
                assert(prev[k] == acts[k]);
            }
        }
        law_undo_keeps(r, prev);
    }
}

/// Undoing all insertions restores the sequence.
pub proof fn lemma_undo_apply(s: Seq<u64>, acts: Seq<(int, int)>)
    requires
        actions_fit(acts, s.len() as int),
    ensures
        undo_actions(apply_actions(s, acts), acts) == s,
        apply_actions(s, acts).len() == s.len(),
    decreases acts.len(),
{
    if acts.len() > 0 {
        let prev = acts.drop_last();
        assert(actions_fit(prev, s.len() as int)) by {
            assert forall|k: int| 0 <= k < prev.len() implies 0 <= #[trigger] prev[k].1 <= prev[k].0
                < s.len() by {
                assert(prev[k] == acts[k]);
            }
        }
        lemma_undo_apply(s, prev);
        let m = apply_actions(s, prev);
        assert(acts[acts.len() - 1] == acts.last());
        lemma_rotate_undoes_insert(m, acts.last().0, acts.last().1);
    }
}

/// The moves of a sequence, replayed, give back the insertions that move
/// elements, each within the sequence.
pub proof fn lemma_moves_replay(s: Seq<u64>, i: int, adv: nat, done: Seq<(usize, usize)>)
    requires
        1 <= i <= s.len() <= usize::MAX,
        adv < i,
        moves_from(s, 1, 0) == done + moves_from(s, i, adv),
        move_actions(done, 1) == bubble_actions(s, i),
        move_end(done, 1) == i - adv,
    ensures
        move_actions(moves_from(s, 1, 0), 1) == bubble_actions(s, s.len() as int),
        move_end(moves_from(s, 1, 0), 1) == s.len(),
    decreases s.len() - i,
{
    if i >= s.len() {
        if adv > 0 {
            let ms = done.push((adv as usize, 0usize));
            assert(moves_from(s, i, adv) == seq![(adv as usize, 0usize)]);
            assert(done + seq![(adv as usize, 0usize)] == ms);
            assert(ms.drop_last() == done);
        } else {
            assert(done + Seq::<(usize, usize)>::empty() == done);
        }
    } else {
        let b = bubble_at(s, i);
        lemma_count_greater_le(s.take(i), s[i]);
        if b == 0 {
            lemma_moves_replay(s, i + 1, adv + 1, done);
        } else {
            let m = (adv as usize, b as usize);
            let d2 = done.push(m);
            assert(done + (seq![m] + moves_from(s, i + 1, 0)) == d2 + moves_from(s, i + 1, 0));
            assert(d2.drop_last() == done);
            lemma_moves_replay(s, i + 1, 0, d2);
        }
    }
}

/// The insertions that sort a sequence stay inside it.
pub proof fn lemma_bubble_actions_fit(s: Seq<u64>, k: int)
    requires
        0 <= k <= s.len(),
    ensures
        actions_fit(bubble_actions(s, k), s.len() as int),
    decreases k,
{
    if k > 1 {
        lemma_bubble_actions_fit(s, k - 1);
        lemma_count_greater_le(s.take(k - 1), s[k - 1]);
        let prev = bubble_actions(s, k - 1);
        if bubble_at(s, k - 1) > 0 {
            let acts = prev.push((k - 1, bubble_at(s, k - 1) as int));
            assert forall|q: int| 0 <= q < acts.len() implies 0 <= #[trigger] acts[q].1 <= acts[q].0
                < s.len() by {
                if q < prev.len() {
                    assert(acts[q] == prev[q]);
                }
            }
        }
    }
}

/// What an insertion does, position by position.
proof fn lemma_insert_down_index(v: Seq<u64>, i: int, b: int)
    requires
        0 <= b <= i < v.len(),
    ensures
        insert_down(v, i, b).len() == v.len(),
        forall|k: int| 0 <= k < i - b ==> #[trigger] insert_down(v, i, b)[k] == v[k],
        insert_down(v, i, b)[i - b] == v[i],
        forall|k: int| i - b < k <= i ==> #[trigger] insert_down(v, i, b)[k] == v[k - 1],
        forall|k: int| i < k < v.len() ==> #[trigger] insert_down(v, i, b)[k] == v[k],
{
}

/// Moving the inserted element one step further down.
proof fn lemma_insert_down_step(v: Seq<u64>, i: int, b: int)
    requires
        0 <= b < i < v.len(),
    ensures
        insert_down(v, i, b).update(i - b, v[i - b - 1]).update(i - b - 1, v[i]) == insert_down(
            v,
            i,
            b + 1,
        ),
{
    lemma_insert_down_index(v, i, b);
    lemma_insert_down_index(v, i, b + 1);
    let t = insert_down(v, i, b).update(i - b, v[i - b - 1]).update(i - b - 1, v[i]);
    let u = insert_down(v, i, b + 1);
    assert forall|k: int| 0 <= k < v.len() implies t[k] == u[k] by {
        if k < i - b - 1 {
        } else if k == i - b - 1 {
        } else if k == i - b {
        } else if k <= i {
        } else {
        }
    }
    assert(t =~= u);
}

/// Inserting the element at `i` into a sorted prefix of length `i`, past
/// the `b` elements greater than it, keeps the elements and sorts the
/// prefix of length `i + 1`.
proof fn lemma_insert_sorted(v: Seq<u64>, i: int, b: int)
    requires
        0 <= b <= i < v.len(),
        sorted_u64(v.take(i)),
        forall|k: int| 0 <= k < i - b ==> v[k] <= v[i],
        forall|k: int| i - b <= k < i ==> v[k] > v[i],
    ensures
        count_greater(v.take(i), v[i]) == b,
        sorted_u64(insert_down(v, i, b).take(i + 1)),
        insert_down(v, i, b).skip(i + 1) == v.skip(i + 1),
        forall|y: u64| #[trigger] count_greater(insert_down(v, i, b).take(i + 1), y) == count_greater(v.take(i + 1), y),
{
    let vt = v.take(i);
    let x = v[i];
    let r = insert_down(v, i, b);
    let j = i - b;
    lemma_insert_down_index(v, i, b);
    assert(vt == vt.take(j) + vt.subrange(j, i));
    lemma_count_greater_concat(vt.take(j), vt.subrange(j, i), x);
    lemma_count_greater_none(vt.take(j), x);
    lemma_count_greater_all(vt.subrange(j, i), x);
    let nt = r.take(i + 1);
    assert(nt =~= vt.take(j) + seq![x] + vt.subrange(j, i));
    assert(v.take(i + 1) == vt.push(x));
    assert forall|y: u64| #[trigger] count_greater(nt, y) == count_greater(v.take(i + 1), y) by {
        lemma_count_greater_concat(vt.take(j) + seq![x], vt.subrange(j, i), y);
        lemma_count_greater_concat(vt.take(j), seq![x], y);
        lemma_count_greater_concat(vt.take(j), vt.subrange(j, i), y);
        lemma_count_greater_push(Seq::<u64>::empty(), x, y);
        assert(Seq::<u64>::empty().push(x) == seq![x]);
        lemma_count_greater_push(vt, x, y);
    }
    assert forall|p: int, q: int| 0 <= p <= q < nt.len() implies nt[p] <= nt[q] by {
        if q < j {
            assert(vt[p] <= vt[q]);
        } else if p < j && q == j {
        } else if p < j {
            assert(vt[p] <= vt[q - 1]);
        } else if p == j {
        } else {
            assert(vt[p - 1] <= vt[q - 1]);
        }
    }
    assert(r.skip(i + 1) =~= v.skip(i + 1));
}

/// Moves the element at `i` back past the greater elements before it, in
/// a prefix that is sorted; returns how far it moved.
fn bubble_back(values: &mut Vec<u64>, i: usize) -> (count: usize)
    requires
        0 < i < old(values)@.len(),
        sorted_u64(old(values)@.take(i as int)),
    ensures
        count <= i,
        count == count_greater(old(values)@.take(i as int), old(values)@[i as int]),
        final(values)@ == insert_down(old(values)@, i as int, count as int),
        sorted_u64(final(values)@.take(i + 1)),
        final(values)@.skip(i + 1) == old(values)@.skip(i + 1),
        forall|y: u64| #[trigger] count_greater(final(values)@.take(i + 1), y) == count_greater(old(values)@.take(i + 1), y),
{
    let ghost v0 = values@;
    let ghost x = v0[i as int];
    let mut j: usize = i;
    proof {
        lemma_insert_down_index(v0, i as int, 0);
        assert(values@ =~= insert_down(v0, i as int, 0));
    }
    while j > 0 && values[j] < values[j - 1]
        invariant
            0 <= j <= i < v0.len(),
            x == v0[i as int],
            values@ == insert_down(v0, i as int, (i - j) as int),
            sorted_u64(v0.take(i as int)),
            forall|k: int| j <= k < i ==> v0[k] > x,
        decreases j,
    {
        proof {
            lemma_insert_down_index(v0, i as int, (i - j) as int);
            lemma_insert_down_step(v0, i as int, (i - j) as int);
        }
        let a = values[j - 1];
        let b = values[j];
        values.set(j, a);
        values.set(j - 1, b);
        j -= 1;
    }
    proof {
        lemma_insert_down_index(v0, i as int, (i - j) as int);
        assert forall|k: int| 0 <= k < j implies v0[k] <= x by {
            assert(v0.take(i as int)[k] <= v0.take(i as int)[j - 1]);
        }
        lemma_insert_sorted(v0, i as int, (i - j) as int);
    }
    i - j
}

/// Sorts `values` by insertion, recording the moves: for each element that
/// has to move back, the number of elements passed in place before it and
/// how far it moves; then a final run of elements in place, if any.
pub fn identify_permutation(values: Vec<u64>) -> (res: (Vec<u64>, Vec<(usize, usize)>))
    ensures
        sorted_u64(res.0@),
        res.1@ == permutation_moves(values@),
        res.0@ == apply_actions(values@, move_actions(res.1@, 1)),
        actions_fit(move_actions(res.1@, 1), values@.len() as int),
        move_end(res.1@, 1) == if values@.len() == 0 { 1 } else { values@.len() as int },
{
    let ghost orig = values@;
    let mut values = values;
    let mut moves: Vec<(usize, usize)> = Vec::new();
    let mut i: usize = 1;
    let mut advance_count: usize = 0;
    if values.len() == 0 {
        assert(moves_from(orig, 1, 0) == Seq::<(usize, usize)>::empty());
        return (values, moves);
    }
    proof {
        assert(orig.take(1).drop_last() == Seq::<u64>::empty());
        assert(values@.take(1) == orig.take(1));
        assert(orig.skip(1) == values@.skip(1));
        assert(moves_from(orig, 1, 0) == moves@ + moves_from(orig, 1, 0));
    }
    while i < values.len()
        invariant
            values@.len() == orig.len(),
            1 <= i <= values@.len(),
            advance_count < i,
            sorted_u64(values@.take(i as int)),
            values@.skip(i as int) == orig.skip(i as int),
            values@ == apply_actions(orig, bubble_actions(orig, i as int)),
            forall|y: u64| #[trigger] count_greater(values@.take(i as int), y) == count_greater(orig.take(i as int), y),
            moves_from(orig, 1, 0) == moves@ + moves_from(orig, i as int, advance_count as nat),
            move_actions(moves@, 1) == bubble_actions(orig, i as int),
            move_end(moves@, 1) == i - advance_count,
        decreases values@.len() - i,
    {
        let ghost v0 = values@;
        let ghost x = orig[i as int];
        proof {
            assert(v0[i as int] == x) by {
                assert(v0.skip(i as int)[0] == orig.skip(i as int)[0]);
            }
            assert(v0.skip(i + 1) == orig.skip(i + 1)) by {
                assert(v0.skip(i + 1) =~= v0.skip(i as int).skip(1));
                assert(orig.skip(i + 1) =~= orig.skip(i as int).skip(1));
            }
            assert(v0.take(i + 1) == v0.take(i as int).push(x));
            assert(orig.take(i + 1) == orig.take(i as int).push(x));
            assert forall|y: u64| #[trigger] count_greater(v0.take(i + 1), y) == count_greater(orig.take(i + 1), y) by {
                lemma_count_greater_push(v0.take(i as int), x, y);
                lemma_count_greater_push(orig.take(i as int), x, y);
                assert(count_greater(v0.take(i as int), y) == count_greater(orig.take(i as int), y));
            }
            assert(count_greater(v0.take(i as int), x) == bubble_at(orig, i as int));
        }
        if values[i] >= values[i - 1] {
            proof {
                assert forall|k: int| 0 <= k < i implies v0.take(i as int)[k] <= x by {
                    assert(v0.take(i as int)[k] <= v0.take(i as int)[i - 1]);
                }
                lemma_count_greater_none(v0.take(i as int), x);
                assert(forall|k: int| 0 <= k <= i ==> #[trigger] v0.take(i + 1)[k] == v0[k]);
                assert(sorted_u64(v0.take(i + 1)));
                assert(bubble_actions(orig, i + 1) == bubble_actions(orig, i as int));
            }
            advance_count += 1;
            i += 1;
        } else {
            proof {
                assert(v0.take(i as int).last() == v0[i - 1]);
                assert(v0.take(i as int).drop_last() == v0.take(i - 1));
                assert(count_greater(v0.take(i as int), x) >= 1);
            }
            let bubble_count = bubble_back(&mut values, i);
            proof {
                let acts = bubble_actions(orig, i + 1);
                assert(acts == bubble_actions(orig, i as int).push((i as int, bubble_count as int)));
                assert(acts.drop_last() == bubble_actions(orig, i as int));
                lemma_count_greater_le(orig.take(i as int), x);
                let m = (advance_count, bubble_count);
                assert(moves@.push(m).drop_last() == moves@);
                assert(moves@ + (seq![m] + moves_from(orig, i + 1, 0)) == moves@.push(m) + moves_from(orig, i + 1, 0));
            }
            moves.push((advance_count, bubble_count));
            advance_count = 0;
            i += 1;
        }
    }
    if advance_count > 0 {
        proof {
            let m = (advance_count, 0usize);
            assert(moves@.push(m).drop_last() == moves@);
            assert(moves@ + seq![m] == moves@.push(m));
        }
        moves.push((advance_count, 0));
    } else {
        assert(moves@ + Seq::<(usize, usize)>::empty() == moves@);
    }
    proof {
        assert(values@.take(values@.len() as int) == values@);
        lemma_moves_replay(orig, 1, 0, Seq::empty());
        lemma_bubble_actions_fit(orig, orig.len() as int);
    }
    (values, moves)
}

/// Undoes the moves: each recorded insertion is reversed, the last first,
/// by rotating its slice left by one.
pub fn restore_permutation(values: Vec<u64>, moves: Vec<(usize, usize)>) -> (restored: Vec<u64>)
    requires
        actions_fit(move_actions(moves@, 1), values@.len() as int),
        move_end(moves@, 1) <= usize::MAX,
    ensures
        restored@ == undo_actions(values@, move_actions(moves@, 1)),
        restored@.len() == values@.len(),
        restored@.to_multiset() == values@.to_multiset(),
{
    proof {
        law_undo_keeps(values@, move_actions(moves@, 1));
    }
    let mut actions: Vec<(usize, usize)> = Vec::new();
    let mut i: usize = 1;
    let mut k: usize = 0;
    while k < moves.len()
        invariant
            k <= moves@.len(),
            move_end(moves@, 1) <= usize::MAX,
            i == move_end(moves@.take(k as int), 1),
            actions@.map_values(|a: (usize, usize)| (a.0 as int, a.1 as int)) == move_actions(moves@.take(k as int), 1),
        decreases moves@.len() - k,
    {
        let (adv, bubble) = moves[k];
        proof {
            assert(moves@.take(k + 1).drop_last() == moves@.take(k as int));
            lemma_move_end_mono(moves@, k + 1);
        }
        i += adv;
        if bubble > 0 {
            actions.push((i, bubble));
            i += 1;
        }
        k += 1;
    }
    assert(moves@.take(moves@.len() as int) == moves@);
    let ghost acts = move_actions(moves@, 1);
    let ghost entry = values@;
    let ghost n = values@.len();
    let mut values = values;
    let mut q: usize = actions.len();
    assert(acts.take(q as int) == acts);
    while q > 0
        invariant
            q <= actions@.len(),
            values@.len() == n,
            acts == actions@.map_values(|a: (usize, usize)| (a.0 as int, a.1 as int)),
            actions_fit(acts, n as int),
            undo_actions(entry, acts) == undo_actions(values@, acts.take(q as int)),
        decreases q,
    {
        q -= 1;
        let (idx, bubble) = actions[q];
        proof {
            assert(acts[q as int] == (idx as int, bubble as int));
            assert(acts.take(q + 1).drop_last() == acts.take(q as int));
            assert(acts.take(q + 1).last() == acts[q as int]);
        }
        let src = idx - bubble;
        let dest = idx;
        let ghost before = values@;
        let first = values[src];
        let mut p: usize = src;
        while p < dest
            invariant
                src <= p <= dest < values@.len(),
                values@.len() == before.len(),
                values@ == before.take(src as int) + before.subrange(src + 1, p + 1) + before.subrange(
                    p as int,
                    before.len() as int,
                ),
                first == before[src as int],
            decreases dest - p,
        {
            let next = values[p + 1];
            values.set(p, next);
            p += 1;
        }
        values.set(dest, first);
        proof {
            assert(values@ =~= rotate_up(before, idx as int, bubble as int));
        }
    }
    assert(acts.take(0) == Seq::<(int, int)>::empty());
    values
}

/// The insertions of a prefix of the moves fit where those of all fit.
pub proof fn lemma_actions_fit_prefix(ms: Seq<(usize, usize)>, k: int, n: int)
    requires
        0 <= k <= ms.len(),
        actions_fit(move_actions(ms, 1), n),
    ensures
        actions_fit(move_actions(ms.take(k), 1), n),
    decreases ms.len() - k,
{
    if k < ms.len() {
        lemma_actions_fit_prefix(ms, k + 1, n);
        let longer = move_actions(ms.take(k + 1), 1);
        let shorter = move_actions(ms.take(k), 1);
        assert(ms.take(k + 1).drop_last() == ms.take(k));
        assert forall|j: int| 0 <= j < shorter.len() implies 0 <= #[trigger] shorter[j].1 <= shorter[j].0
            < n by {
            assert(shorter[j] == longer[j]);
        }
    } else {
        assert(ms.take(k) == ms);
    }
}

/// Whether the insertions that the moves record stay inside a sequence of
/// length `n`, with every position within a `usize`.
#[verifier::spinoff_prover]
#[verifier::rlimit(40)]
pub fn moves_fit(moves: &Vec<(usize, usize)>, n: usize) -> (b: bool)
    ensures
        b == (actions_fit(move_actions(moves@, 1), n as int) && move_end(moves@, 1) <= usize::MAX),
{
    let mut i: usize = 1;
    let mut k: usize = 0;
    assert(moves@.take(0) == Seq::<(usize, usize)>::empty());
    while k < moves.len()
        invariant
            k <= moves@.len(),
            i == move_end(moves@.take(k as int), 1),
            actions_fit(move_actions(moves@.take(k as int), 1), n as int),
        decreases moves@.len() - k,
    {
        let (adv, bubble) = moves[k];
        proof {
            assert(moves@.take(k + 1).drop_last() == moves@.take(k as int));
            assert(moves@.take(k + 1).last() == moves@[k as int]);
            lemma_move_end_mono(moves@, k + 1);
        }
        if adv > usize::MAX - i {
            return false;
        }
        let pos = i + adv;
        if bubble > 0 {
            if pos == usize::MAX {
                return false;
            }
            if bubble > pos || pos >= n {
                proof {
                    let acts = move_actions(moves@.take(k + 1), 1);
                    assert(acts.last() == (pos as int, bubble as int));
                    if actions_fit(move_actions(moves@, 1), n as int) {
                        lemma_actions_fit_prefix(moves@, k + 1, n as int);
                        assert(acts[acts.len() - 1] == acts.last());
                        let t = acts[acts.len() - 1].1;
                        assert(0 <= t <= acts[acts.len() - 1].0 < n);
                        assert(false);
                    }
                }
                return false;
            }
            i = pos + 1;
        } else {
            i = pos;
        }
        k += 1;
        proof {
            let acts = move_actions(moves@.take(k as int), 1);
            let prev = move_actions(moves@.take(k - 1), 1);
            assert forall|j: int| 0 <= j < acts.len() implies 0 <= #[trigger] acts[j].1 <= acts[j].0
                < n by {
                if j < prev.len() {
                    assert(acts[j] == prev[j]);
                }
            }
        }
    }
    assert(moves@.take(moves@.len() as int) == moves@);
    true
}

pub proof fn lemma_move_end_mono(ms: Seq<(usize, usize)>, k: int)
    requires
        0 <= k <= ms.len(),
    ensures
        move_end(ms.take(k), 1) <= move_end(ms, 1),
        move_end(ms.take(k), 1) >= 1,
    decreases ms.len() - k,
{
    lemma_move_end_ge(ms.take(k));
    if k < ms.len() {
        lemma_move_end_mono(ms, k + 1);
        assert(ms.take(k + 1).drop_last() == ms.take(k));
    } else {
        assert(ms.take(k) == ms);
    }
}

pub proof fn lemma_move_end_ge(ms: Seq<(usize, usize)>)
    ensures
        move_end(ms, 1) >= 1,
    decreases ms.len(),
{
    if ms.len() > 0 {
        lemma_move_end_ge(ms.drop_last());
    }
}

/// Restoring after sorting gives the original sequence back.
pub proof fn law_restore_identify(s: Seq<u64>)
    requires
        s.len() <= usize::MAX,
    ensures
        ({
            let acts = move_actions(permutation_moves(s), 1);
            &&& actions_fit(acts, s.len() as int)
            &&& undo_actions(apply_actions(s, acts), acts) == s
        }),
{
    if s.len() > 0 {
        assert(s.take(1).drop_last() == Seq::<u64>::empty());
        assert(moves_from(s, 1, 0) == Seq::<(usize, usize)>::empty() + moves_from(s, 1, 0));
        lemma_moves_replay(s, 1, 0, Seq::empty());
        lemma_bubble_actions_fit(s, s.len() as int);
        lemma_undo_apply(s, bubble_actions(s, s.len() as int));
    } else {
        assert(moves_from(s, 1, 0) == Seq::<(usize, usize)>::empty());
    }
}

/// Each step of the scan adds at most one move, and the last one more.
proof fn lemma_moves_from_len(s: Seq<u64>, i: int, adv: nat)
    ensures
        i >= s.len() ==> moves_from(s, i, adv).len() <= 1,
        i < s.len() ==> moves_from(s, i, adv).len() <= s.len() - i + 1,
        i >= s.len() && adv == 0 ==> moves_from(s, i, adv).len() == 0,
    decreases s.len() - i,
{
    if i < s.len() {
        if bubble_at(s, i) == 0 {
            lemma_moves_from_len(s, i + 1, adv + 1);
        } else {
            lemma_moves_from_len(s, i + 1, 0);
        }
    }
}

/// A sequence has no more moves than elements, and replaying its moves ends
/// at its end.
pub proof fn lemma_moves_bounds(s: Seq<u64>)
    requires
        s.len() <= usize::MAX,
    ensures
        permutation_moves(s).len() <= s.len(),
        s.len() > 0 ==> move_end(permutation_moves(s), 1) == s.len(),
{
    lemma_moves_from_len(s, 1, 0);
    if s.len() > 0 {
        assert(s.take(1).drop_last() == Seq::<u64>::empty());
        assert(moves_from(s, 1, 0) == Seq::<(usize, usize)>::empty() + moves_from(s, 1, 0));
        lemma_moves_replay(s, 1, 0, Seq::empty());
    }
}

/// Insertions that stay inside a sequence keep its length.
pub proof fn lemma_apply_len(s: Seq<u64>, acts: Seq<(int, int)>)
    requires
        actions_fit(acts, s.len() as int),
    ensures
        apply_actions(s, acts).len() == s.len(),
    decreases acts.len(),
{
    if acts.len() > 0 {
        let init = acts.drop_last();
        assert forall|k: int| 0 <= k < init.len() implies 0 <= #[trigger] init[k].1 <= init[k].0 < s.len() by {
            assert(init[k] == acts[k]);
        }
        lemma_apply_len(s, init);
        let last = acts[acts.len() - 1];
        assert(0 <= last.1 <= last.0 < s.len());
        lemma_insert_down_index(apply_actions(s, init), last.0, last.1);
    }
}

/// Insertions that stay inside a sequence keep its elements.
pub proof fn lemma_apply_members(s: Seq<u64>, acts: Seq<(int, int)>, x: u64)
    requires
        actions_fit(acts, s.len() as int),
    ensures
        apply_actions(s, acts).contains(x) <==> s.contains(x),
    decreases acts.len(),
{
    if acts.len() > 0 {
        let init = acts.drop_last();
        assert forall|k: int| 0 <= k < init.len() implies 0 <= #[trigger] init[k].1 <= init[k].0 < s.len() by {
            assert(init[k] == acts[k]);
        }
        lemma_apply_members(s, init, x);
        lemma_apply_len(s, init);
        let v = apply_actions(s, init);
        let last = acts[acts.len() - 1];
        let (i, b) = (last.0, last.1);
        assert(0 <= b <= i < s.len());
        lemma_insert_down_index(v, i, b);
        let w = insert_down(v, i, b);
        if v.contains(x) {
            let k = choose|k: int| 0 <= k < v.len() && v[k] == x;
            if k < i - b {
                assert(w[k] == x);
            } else if k < i {
                assert(w[k + 1] == x);
            } else if k == i {
                assert(w[i - b] == x);
            } else {
                assert(w[k] == x);
            }
        }
        if w.contains(x) {
            let k = choose|k: int| 0 <= k < w.len() && w[k] == x;
            if k < i - b {
                assert(v[k] == x);
            } else if k == i - b {
                assert(v[i] == x);
            } else if k <= i {
                assert(v[k - 1] == x);
            } else {
                assert(v[k] == x);
            }
        }
    }
}

// ---------------------------------------------------------------------------
// The moves count the inversions
// ---------------------------------------------------------------------------
/// The pairs of positions whose elements are out of order: an earlier
/// element exceeding a later one.
pub open spec fn inversions(s: Seq<u64>) -> nat
    decreases s.len(),
{
    if s.len() == 0 {
        0
    } else {
        inversions(s.drop_last()) + count_greater(s.drop_last(), s.last())
    }
}

/// The total distance that the moves record.
pub open spec fn moves_distance(ms: Seq<(usize, usize)>) -> nat
    decreases ms.len(),
{
    if ms.len() == 0 {
        0
    } else {
        ms[0].1 as nat + moves_distance(ms.drop_first())
    }
}

/// The distances of the insertions of the elements from `i` on.
pub open spec fn bubble_sum(s: Seq<u64>, i: int) -> nat
    decreases s.len() - i,
{
    if i >= s.len() || i < 0 {
        0
    } else {
        bubble_at(s, i) + bubble_sum(s, i + 1)
    }
}

/// The moves from `i` on record the distances of the insertions from `i`
/// on.
proof fn lemma_moves_distance(s: Seq<u64>, i: int, adv: nat)
    requires
        0 <= i,
        s.len() <= usize::MAX,
    ensures
        moves_distance(moves_from(s, i, adv)) == bubble_sum(s, i),
    decreases s.len() - i,
{
    assert(moves_distance(Seq::<(usize, usize)>::empty()) == 0);
    if i >= s.len() {
        if adv > 0 {
            let m = seq![(adv as usize, 0usize)];
            assert(m.drop_first() =~= Seq::<(usize, usize)>::empty());
            assert(moves_distance(m) == 0);
        }
    } else {
        let b = bubble_at(s, i);
        lemma_count_greater_le(s.take(i), s[i]);
        if b == 0 {
            lemma_moves_distance(s, i + 1, adv + 1);
        } else {
            lemma_moves_distance(s, i + 1, 0);
            let rest = moves_from(s, i + 1, 0);
            let m = seq![(adv as usize, b as usize)] + rest;
            assert(m.drop_first() =~= rest);
            assert(m[0].1 == b as usize);
            assert(b as usize as nat == b);
        }
    }
}

/// The inversions of a prefix and the distances of the insertions after it
/// make up the inversions of the whole.
proof fn lemma_inversions_split(s: Seq<u64>, k: int)
    requires
        0 <= k <= s.len(),
    ensures
        inversions(s.take(k)) + bubble_sum(s, k) == inversions(s),
    decreases s.len() - k,
{
    if k == s.len() {
        assert(s.take(k) =~= s);
    } else {
        lemma_inversions_split(s, k + 1);
        assert(s.take(k + 1).drop_last() =~= s.take(k));
        assert(s.take(k + 1).last() == s[k]);
    }
}

/// Sorting by insertion moves the elements, all told, as far as there are
/// pairs out of order: the distances of the moves add up to the number of
/// inversions.
pub proof fn law_moves_count_inversions(s: Seq<u64>)
    requires
        s.len() <= usize::MAX,
    ensures
        moves_distance(permutation_moves(s)) == inversions(s),
{
    lemma_moves_distance(s, 1, 0);
    assert(moves_distance(permutation_moves(s)) == bubble_sum(s, 1));
    if s.len() > 0 {
        lemma_inversions_split(s, 1);
        let e = Seq::<u64>::empty();
        assert(s.take(1).drop_last() =~= e);
        assert(count_greater(e, s.take(1).last()) == 0);
        assert(inversions(e) == 0);
        assert(inversions(s.take(1)) == 0);
    } else {
        assert(bubble_sum(s, 1) == 0);
        assert(inversions(s) == 0);
    }
}

// ---------------------------------------------------------------------------
// The recorded moves sort
// ---------------------------------------------------------------------------
/// In a sorted sequence the elements above `x` are its last ones, as many
/// as there are.
proof fn lemma_sorted_split(t: Seq<u64>, x: u64)
    requires
        sorted_u64(t),
    ensures
        count_greater(t, x) <= t.len(),
        forall|k: int| 0 <= k < t.len() - count_greater(t, x) ==> #[trigger] t[k] <= x,
        forall|k: int| t.len() - count_greater(t, x) <= k < t.len() ==> #[trigger] t[k] > x,
    decreases t.len(),
{
    if t.len() > 0 {
        let u = t.drop_last();
        assert forall|a: int, b: int| 0 <= a <= b < u.len() implies u[a] <= u[b] by {
            assert(u[a] == t[a] && u[b] == t[b]);
        }
        lemma_sorted_split(u, x);
        let c = count_greater(u, x);
        if t.last() > x {
            assert forall|k: int| 0 <= k < t.len() - count_greater(t, x) implies #[trigger] t[k] <= x by {
                assert(t[k] == u[k]);
            }
            assert forall|k: int| t.len() - count_greater(t, x) <= k < t.len() implies #[trigger] t[k] > x by {
                if k < u.len() {
                    assert(t[k] == u[k]);
                }
            }
        } else {
            if c > 0 {
                let k = u.len() - 1;
                assert(u[k] > x);
                assert(t[k] <= t[t.len() - 1]);
            }
            assert forall|k: int| 0 <= k < t.len() implies #[trigger] t[k] <= x by {
                assert(t[k] <= t[t.len() - 1]);
            }
        }
    }
}

/// After the insertions of the elements before `k`, the first `k`
/// elements are sorted and hold the same elements as before, and the rest
/// is untouched.
proof fn lemma_bubble_sorted(v: Seq<u64>, k: int)
    requires
        1 <= k <= v.len(),
    ensures
        apply_actions(v, bubble_actions(v, k)).len() == v.len(),
        sorted_u64(apply_actions(v, bubble_actions(v, k)).take(k)),
        apply_actions(v, bubble_actions(v, k)).skip(k) == v.skip(k),
        forall|y: u64| #[trigger] count_greater(apply_actions(v, bubble_actions(v, k)).take(k), y) == count_greater(
            v.take(k),
            y,
        ),
    decreases k,
{
    if k == 1 {
        assert(bubble_actions(v, 1) == Seq::<(int, int)>::empty());
        assert(apply_actions(v, Seq::<(int, int)>::empty()) == v);
    } else {
        lemma_bubble_sorted(v, k - 1);
        let i = k - 1;
        let w = apply_actions(v, bubble_actions(v, i));
        let x = v[i];
        assert(w[i] == w.skip(i)[0] && v[i] == v.skip(i)[0]);
        assert(w[i] == x);
        let b = bubble_at(v, i);
        assert(b == count_greater(v.take(i), x));
        assert(count_greater(w.take(i), x) == b);
        lemma_sorted_split(w.take(i), x);
        assert(w.take(i + 1) =~= w.take(i).push(x));
        assert(v.take(i + 1) =~= v.take(i).push(x));
        assert forall|y: u64| #[trigger] count_greater(w.take(i + 1), y) == count_greater(v.take(i + 1), y) by {
            lemma_count_greater_push(w.take(i), x, y);
            lemma_count_greater_push(v.take(i), x, y);
        }
        if b > 0 {
            let acts = bubble_actions(v, i).push((i, b as int));
            assert(bubble_actions(v, k) == acts);
            assert(acts.drop_last() =~= bubble_actions(v, i));
            assert(apply_actions(v, acts) == insert_down(w, i, b as int));
            assert forall|j: int| 0 <= j < i - b implies w[j] <= w[i] by {
                assert(w.take(i)[j] == w[j]);
            }
            assert forall|j: int| i - b <= j < i implies w[j] > w[i] by {
                assert(w.take(i)[j] == w[j]);
            }
            lemma_insert_down_index(w, i, b as int);
            lemma_insert_sorted(w, i, b as int);
            assert(insert_down(w, i, b as int).skip(i + 1) == w.skip(i + 1));
            assert(w.skip(i + 1) =~= w.skip(i).skip(1));
            assert(v.skip(i + 1) =~= v.skip(i).skip(1));
        } else {
            assert(bubble_actions(v, k) == bubble_actions(v, i));
            let wt = w.take(i + 1);
            assert forall|a: int, c: int| 0 <= a <= c < i + 1 implies #[trigger] wt[a] <= #[trigger] wt[c] by {
                if c < i {
                    assert(w.take(i)[a] <= w.take(i)[c]);
                } else if a < i {
                    assert(w.take(i)[a] <= x);
                }
            }
            assert(w.skip(i + 1) =~= w.skip(i).skip(1));
            assert(v.skip(i + 1) =~= v.skip(i).skip(1));
        }
    }
}

/// Replaying the moves that sort a sequence sorts it, keeping its length
/// and its elements.
pub proof fn law_moves_sort(v: Seq<u64>)
    requires
        v.len() <= usize::MAX,
    ensures
        sorted_u64(apply_actions(v, move_actions(permutation_moves(v), 1))),
        apply_actions(v, move_actions(permutation_moves(v), 1)).len() == v.len(),
        forall|x: u64| apply_actions(v, move_actions(permutation_moves(v), 1)).contains(x) <==> v.contains(x),
{
    if v.len() == 0 {
        assert(permutation_moves(v) == Seq::<(usize, usize)>::empty());
        assert(move_actions(Seq::<(usize, usize)>::empty(), 1) == Seq::<(int, int)>::empty());
    } else {
        let e = Seq::<(usize, usize)>::empty();
        assert(e + moves_from(v, 1, 0) == moves_from(v, 1, 0));
        assert(move_actions(e, 1) == bubble_actions(v, 1));
        lemma_moves_replay(v, 1, 0, e);
        let n = v.len() as int;
        lemma_bubble_sorted(v, n);
        let w = apply_actions(v, bubble_actions(v, n));
        assert(w.take(n) =~= w);
        lemma_bubble_actions_fit(v, n);
        assert forall|x: u64| w.contains(x) <==> v.contains(x) by {
            lemma_apply_members(v, bubble_actions(v, n), x);
        }
    }
}

} // verus!
