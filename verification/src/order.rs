//! Keyed sequences in recency order.
//!
//! A sequence of pairs is read as a list of entries, each a key with its
//! payload, from the least recently used entry (index 0) to the most recently
//! used one (the last index). Both the node arena (node id and element) and the
//! cache (key and value) are described by such a sequence.

use vstd::prelude::*;

verus! {

/// No key occurs at two positions of `s`.
pub open spec fn distinct_keys<A, B>(s: Seq<(A, B)>) -> bool {
    forall|i: int, j: int|
        0 <= i < s.len() && 0 <= j < s.len() && i != j ==> (#[trigger] s[i]).0 != (
        #[trigger] s[j]).0
}

/// Some entry of `s` has key `a`.
pub open spec fn holds<A, B>(s: Seq<(A, B)>, a: A) -> bool {
    exists|i: int| 0 <= i < s.len() && (#[trigger] s[i]).0 == a
}

/// A position at which `s` has key `a`: the only one where keys are distinct.
pub open spec fn position<A, B>(s: Seq<(A, B)>, a: A) -> int
    recommends
        holds(s, a),
{
    choose|i: int| 0 <= i < s.len() && (#[trigger] s[i]).0 == a
}

/// The payload stored under key `a`, if there is one.
pub open spec fn lookup<A, B>(s: Seq<(A, B)>, a: A) -> Option<B> {
    if holds(s, a) {
        Some(s[position(s, a)].1)
    } else {
        None
    }
}

/// `s` after the entry with key `a` has been moved to the most recently used
/// end; `s` itself where no entry has that key.
pub open spec fn touched<A, B>(s: Seq<(A, B)>, a: A) -> Seq<(A, B)> {
    if holds(s, a) {
        s.remove(position(s, a)).push(s[position(s, a)])
    } else {
        s
    }
}

/// `s` without the entry with key `a`; `s` itself where no entry has that key.
pub open spec fn removed<A, B>(s: Seq<(A, B)>, a: A) -> Seq<(A, B)> {
    if holds(s, a) {
        s.remove(position(s, a))
    } else {
        s
    }
}

/// `s` after an insertion of `a` with payload `b` under the bound `capacity`.
///
/// - A key that is already held is only touched: its old payload stays and `b`
///   is dropped.
/// - Under a bound of zero nothing is ever stored.
/// - Otherwise the new entry becomes the most recently used one, and where the
///   bound is reached the least recently used entry leaves first.
pub open spec fn inserted<A, B>(s: Seq<(A, B)>, capacity: nat, a: A, b: B) -> Seq<(A, B)> {
    if holds(s, a) {
        touched(s, a)
    } else if capacity == 0 {
        s
    } else if s.len() >= capacity {
        s.drop_first().push((a, b))
    } else {
        s.push((a, b))
    }
}

/// With distinct keys, an entry's key is found at that entry's position and
/// nowhere else.
pub proof fn lemma_position<A, B>(s: Seq<(A, B)>, i: int)
    requires
        distinct_keys(s),
        0 <= i < s.len(),
    ensures
        holds(s, s[i].0),
        position(s, s[i].0) == i,
        lookup(s, s[i].0) == Some(s[i].1),
{
    let j = position(s, s[i].0);
    assert(0 <= j < s.len() && s[j].0 == s[i].0);
}

/// Appending an entry under a key that is not yet held keeps the keys distinct,
/// keeps every other key's payload and stores the new one.
pub proof fn lemma_push<A, B>(s: Seq<(A, B)>, a: A, b: B)
    requires
        distinct_keys(s),
        !holds(s, a),
    ensures
        distinct_keys(s.push((a, b))),
        lookup(s.push((a, b)), a) == Some(b),
        forall|c: A| c != a ==> lookup(s.push((a, b)), c) == lookup(s, c),
        forall|c: A| holds(s.push((a, b)), c) <==> (c == a || holds(s, c)),
{
    let t = s.push((a, b));
    assert(distinct_keys(t)) by {
        assert forall|i: int, j: int| 0 <= i < t.len() && 0 <= j < t.len() && i != j implies (
        #[trigger] t[i]).0 != (#[trigger] t[j]).0 by {
            if i < s.len() {
                assert(t[i] == s[i]);
            }
            if j < s.len() {
                assert(t[j] == s[j]);
            }
        }
    }
    assert(t[s.len() as int].0 == a);
    lemma_position(t, s.len() as int);
    assert forall|c: A| holds(t, c) <==> (c == a || holds(s, c)) by {
        if holds(s, c) {
            let i = position(s, c);
            assert(t[i].0 == c);
        }
        if holds(t, c) && c != a {
            let i = position(t, c);
            assert(s[i].0 == c);
        }
    }
    assert forall|c: A| c != a implies lookup(t, c) == lookup(s, c) by {
        if holds(s, c) {
            let i = position(s, c);
            assert(t[i] == s[i]);
            lemma_position(t, i);
        }
    }
}

/// Taking out the entry at position `i` keeps the keys distinct, drops that
/// entry's key and keeps every other key's payload.
pub proof fn lemma_remove_at<A, B>(s: Seq<(A, B)>, i: int)
    requires
        distinct_keys(s),
        0 <= i < s.len(),
    ensures
        distinct_keys(s.remove(i)),
        s.remove(i).len() == s.len() - 1,
        !holds(s.remove(i), s[i].0),
        forall|c: A| c != s[i].0 ==> lookup(s.remove(i), c) == lookup(s, c),
        forall|c: A| holds(s.remove(i), c) <==> (c != s[i].0 && holds(s, c)),
{
    let t = s.remove(i);
    assert(forall|j: int| 0 <= j < i ==> t[j] == s[j]);
    assert(forall|j: int| i <= j < t.len() ==> t[j] == s[j + 1]);
    assert(distinct_keys(t)) by {
        assert forall|j: int, k: int| 0 <= j < t.len() && 0 <= k < t.len() && j != k implies (
        #[trigger] t[j]).0 != (#[trigger] t[k]).0 by {
            let sj = if j < i { j } else { j + 1 };
            let sk = if k < i { k } else { k + 1 };
            assert(t[j] == s[sj] && t[k] == s[sk]);
        }
    }
    assert forall|c: A| holds(t, c) <==> (c != s[i].0 && holds(s, c)) by {
        if holds(t, c) {
            let j = position(t, c);
            let sj = if j < i { j } else { j + 1 };
            assert(s[sj].0 == c);
        }
        if holds(s, c) && c != s[i].0 {
            let j = position(s, c);
            let tj = if j < i { j } else { j - 1 };
            assert(t[tj].0 == c);
        }
    }
    assert forall|c: A| c != s[i].0 implies lookup(t, c) == lookup(s, c) by {
        if holds(s, c) {
            let j = position(s, c);
            let tj = if j < i { j } else { j - 1 };
            assert(t[tj] == s[j]);
            lemma_position(t, tj);
        }
    }
}

/// Removal by key: the key is gone, the length falls by one exactly where the
/// key was held, and every other key keeps its payload.
pub proof fn lemma_removed<A, B>(s: Seq<(A, B)>, a: A)
    requires
        distinct_keys(s),
    ensures
        distinct_keys(removed(s, a)),
        !holds(removed(s, a), a),
        lookup(removed(s, a), a) is None,
        removed(s, a).len() == s.len() - (if holds(s, a) { 1int } else { 0int }),
        forall|c: A| c != a ==> lookup(removed(s, a), c) == lookup(s, c),
        forall|c: A| holds(removed(s, a), c) <==> (c != a && holds(s, c)),
{
    if holds(s, a) {
        lemma_remove_at(s, position(s, a));
    }
}

/// A touch keeps the length, the set of keys and every key's payload; the
/// touched entry, where there is one, ends up most recently used, and the
/// others keep their order among themselves.
pub proof fn lemma_touched<A, B>(s: Seq<(A, B)>, a: A)
    requires
        distinct_keys(s),
    ensures
        distinct_keys(touched(s, a)),
        touched(s, a).len() == s.len(),
        forall|c: A| holds(touched(s, a), c) <==> holds(s, c),
        forall|c: A| lookup(touched(s, a), c) == lookup(s, c),
        holds(s, a) ==> touched(s, a).last() == s[position(s, a)] && touched(s, a).last().0 == a,
        holds(s, a) ==> touched(s, a).drop_last() == removed(s, a),
{
    if holds(s, a) {
        let i = position(s, a);
        let r = s.remove(i);
        lemma_remove_at(s, i);
        lemma_push(r, a, s[i].1);
        assert(s[i] == (a, s[i].1));
        lemma_position(s, i);
        assert(r.push(s[i]).drop_last() == r);
    }
}

/// An insertion keeps the keys distinct and the length within the bound.
pub proof fn lemma_inserted_valid<A, B>(s: Seq<(A, B)>, capacity: nat, a: A, b: B)
    requires
        distinct_keys(s),
        s.len() <= capacity,
    ensures
        distinct_keys(inserted(s, capacity, a, b)),
        inserted(s, capacity, a, b).len() <= capacity,
{
    if holds(s, a) {
        lemma_touched(s, a);
    } else if capacity == 0 {
    } else if s.len() >= capacity {
        assert(s.drop_first() == s.remove(0));
        lemma_remove_at(s, 0);
        lemma_push(s.drop_first(), a, b);
    } else {
        lemma_push(s, a, b);
    }
}

/// What an insertion under a positive bound stores: a new key gets the payload
/// that came with it, a key that was already held keeps its old payload.
pub proof fn lemma_inserted_lookup<A, B>(s: Seq<(A, B)>, capacity: nat, a: A, b: B)
    requires
        distinct_keys(s),
        capacity > 0,
    ensures
        holds(inserted(s, capacity, a, b), a),
        inserted(s, capacity, a, b).last().0 == a,
        !holds(s, a) ==> lookup(inserted(s, capacity, a, b), a) == Some(b),
        holds(s, a) ==> lookup(inserted(s, capacity, a, b), a) == lookup(s, a),
{
    if holds(s, a) {
        lemma_touched(s, a);
    } else if s.len() >= capacity {
        assert(s.drop_first() == s.remove(0));
        lemma_remove_at(s, 0);
        lemma_push(s.drop_first(), a, b);
    } else {
        lemma_push(s, a, b);
    }
}

/// An insertion evicts when the key is new and the bound, which is not zero,
/// is reached.
pub open spec fn evicts<A, B>(s: Seq<(A, B)>, capacity: nat, a: A) -> bool {
    !holds(s, a) && 0 < capacity <= s.len()
}

/// Which entry an insertion evicts: the least recently used one, and only when
/// the key is new and the bound is reached. Every other entry stays, with its
/// payload.
pub proof fn lemma_inserted_evicts<A, B>(s: Seq<(A, B)>, capacity: nat, a: A, b: B)
    requires
        distinct_keys(s),
        s.len() <= capacity,
    ensures
        evicts(s, capacity, a) ==> {
            &&& inserted(s, capacity, a, b) == s.drop_first().push((a, b))
            &&& !holds(inserted(s, capacity, a, b), s[0].0)
        },
        forall|c: A|
            holds(s, c) && !(evicts(s, capacity, a) && c == s[0].0) ==> lookup(
                inserted(s, capacity, a, b),
                c,
            ) == lookup(s, c),
{
    if holds(s, a) {
        lemma_touched(s, a);
    } else if capacity == 0 {
    } else if s.len() >= capacity {
        let t = s.drop_first();
        assert(t == s.remove(0));
        lemma_remove_at(s, 0);
        lemma_push(t, a, b);
        lemma_position(s, 0);
    } else {
        lemma_push(s, a, b);
    }
}

} // verus!
