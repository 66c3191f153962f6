//! Sequences of cache operations, and what holds after every one of them.
//!
//! The three operations of the cache act on its entry list as `touched`,
//! `inserted` and `removed` say. This module replays a whole sequence of
//! operations on an empty cache and proves that the resulting list respects
//! the bound and is ordered by the time of each entry's last touch, so that
//! the entry at the front, which the next eviction takes, is the one that was
//! touched longest ago.

use crate::order::{
    distinct_keys, holds, inserted, lemma_inserted_valid, lemma_removed, lemma_touched, position,
    removed, touched,
};
use vstd::prelude::*;

verus! {

/// One call on a cache.
pub enum Op<K, V> {
    /// `get(k)`
    Get(K),
    /// `insert(k, v)`
    Insert(K, V),
    /// `remove(k)`
    Remove(K),
}

impl<K, V> Op<K, V> {
    /// The operation is a `get` or an `insert` of key `k`: the two calls that
    /// count as a use of `k`.
    pub open spec fn touches(self, k: K) -> bool {
        match self {
            Op::Get(a) => a == k,
            Op::Insert(a, _) => a == k,
            Op::Remove(_) => false,
        }
    }
}

/// The entry list after `op` has acted on the entry list `s` of a cache with
/// the given capacity.
pub open spec fn step<K, V>(s: Seq<(K, V)>, capacity: nat, op: Op<K, V>) -> Seq<(K, V)> {
    match op {
        Op::Get(k) => touched(s, k),
        Op::Insert(k, v) => inserted(s, capacity, k, v),
        Op::Remove(k) => removed(s, k),
    }
}

/// The entry list of a cache with the given capacity that started empty and
/// has gone through `ops`, first to last.
pub open spec fn run<K, V>(capacity: nat, ops: Seq<Op<K, V>>) -> Seq<(K, V)>
    decreases ops.len(),
{
    if ops.len() == 0 {
        Seq::empty()
    } else {
        step(run(capacity, ops.drop_last()), capacity, ops.last())
    }
}

/// The index in `ops` of the last operation that touches `k`; -1 where none
/// does.
pub open spec fn last_touch<K, V>(ops: Seq<Op<K, V>>, k: K) -> int
    decreases ops.len(),
{
    if ops.len() == 0 {
        -1
    } else if ops.last().touches(k) {
        ops.len() - 1
    } else {
        last_touch(ops.drop_last(), k)
    }
}

/// Every entry of `s` has been touched in `ops`, and the entries stand in the
/// order of their last touches, the one touched longest ago first.
pub open spec fn in_touch_order<K, V>(s: Seq<(K, V)>, ops: Seq<Op<K, V>>) -> bool {
    &&& forall|i: int| 0 <= i < s.len() ==> 0 <= last_touch(ops, (#[trigger] s[i]).0)
    &&& forall|i: int, j: int|
        0 <= i < j < s.len() ==> last_touch(ops, (#[trigger] s[i]).0) < last_touch(
            ops,
            (#[trigger] s[j]).0,
        )
}

/// `last_touch` is what its name says: where it is not -1 it is the index of
/// an operation that touches `k`, and no later operation does.
pub proof fn lemma_last_touch<K, V>(ops: Seq<Op<K, V>>, k: K)
    ensures
        -1 <= last_touch(ops, k) < ops.len(),
        last_touch(ops, k) >= 0 ==> ops[last_touch(ops, k)].touches(k),
        forall|i: int| last_touch(ops, k) < i < ops.len() ==> !(#[trigger] ops[i]).touches(k),
    decreases ops.len(),
{
    if ops.len() > 0 && !ops.last().touches(k) {
        let front = ops.drop_last();
        lemma_last_touch(front, k);
        assert forall|i: int| last_touch(ops, k) < i < ops.len() implies !(#[trigger] ops[i])
            .touches(k) by {
            if i < front.len() {
                assert(front[i] == ops[i]);
            }
        }
    }
}

/// Capacity bound, for every sequence of operations: the entry list never
/// holds a key twice and never grows beyond the capacity.
pub proof fn lemma_run_valid<K, V>(capacity: nat, ops: Seq<Op<K, V>>)
    ensures
        distinct_keys(run(capacity, ops)),
        run(capacity, ops).len() <= capacity,
    decreases ops.len(),
{
    if ops.len() > 0 {
        let before = run(capacity, ops.drop_last());
        lemma_run_valid(capacity, ops.drop_last());
        match ops.last() {
            Op::Get(k) => {
                lemma_touched(before, k);
            },
            Op::Insert(k, v) => {
                lemma_inserted_valid(before, capacity, k, v);
            },
            Op::Remove(k) => {
                lemma_removed(before, k);
            },
        }
    }
}

/// Moving the entry at position `p` of a list in touch order to the end, with
/// any payload, gives a list in touch order once an operation that touches
/// its key is added to the history.
proof fn lemma_order_after_touch<K, V>(
    before: Seq<(K, V)>,
    ops: Seq<Op<K, V>>,
    p: int,
    moved: (K, V),
)
    requires
        ops.len() > 0,
        distinct_keys(before),
        in_touch_order(before, ops.drop_last()),
        0 <= p < before.len(),
        ops.last().touches(before[p].0),
        moved.0 == before[p].0,
    ensures
        in_touch_order(before.remove(p).push(moved), ops),
{
    let s = before.remove(p).push(moved);
    let front = ops.drop_last();
    let k = moved.0;
    assert forall|i: int| 0 <= i < s.len() - 1 implies 0 <= last_touch(front, (#[trigger] s[i]).0)
        == last_touch(ops, s[i].0) < ops.len() - 1 by {
        let b = if i < p { i } else { i + 1 };
        assert(s[i] == before[b]);
        lemma_last_touch(front, s[i].0);
    }
    assert(s[s.len() - 1] == moved);
    assert forall|i: int, j: int| 0 <= i < j < s.len() implies last_touch(ops, (#[trigger] s[i]).0)
        < last_touch(ops, (#[trigger] s[j]).0) by {
        if j < s.len() - 1 {
            let bi = if i < p { i } else { i + 1 };
            let bj = if j < p { j } else { j + 1 };
            assert(s[i] == before[bi] && s[j] == before[bj]);
        }
    }
}

/// Taking the entry at position `p` out of a list in touch order, together
/// with an operation that touches none of the keys that are left, keeps the
/// list in touch order.
proof fn lemma_order_after_removal<K, V>(before: Seq<(K, V)>, ops: Seq<Op<K, V>>, p: int)
    requires
        ops.len() > 0,
        in_touch_order(before, ops.drop_last()),
        0 <= p < before.len(),
        forall|i: int|
            0 <= i < before.len() && i != p ==> !ops.last().touches((#[trigger] before[i]).0),
    ensures
        in_touch_order(before.remove(p), ops),
{
    let s = before.remove(p);
    let front = ops.drop_last();
    assert forall|i: int| 0 <= i < s.len() implies last_touch(front, (#[trigger] s[i]).0)
        == last_touch(ops, s[i].0) && s[i] == before[if i < p { i } else { i + 1 }] by {
        let b = if i < p { i } else { i + 1 };
        assert(s[i] == before[b]);
    }
    assert forall|i: int, j: int| 0 <= i < j < s.len() implies last_touch(ops, (#[trigger] s[i]).0)
        < last_touch(ops, (#[trigger] s[j]).0) by {
        let bi = if i < p { i } else { i + 1 };
        let bj = if j < p { j } else { j + 1 };
        assert(s[i] == before[bi] && s[j] == before[bj]);
    }
}

/// Adding an entry under a new key to a list in touch order, together with an
/// operation that touches that key, keeps the list in touch order.
proof fn lemma_order_after_push<K, V>(before: Seq<(K, V)>, ops: Seq<Op<K, V>>, entry: (K, V))
    requires
        ops.len() > 0,
        in_touch_order(before, ops),
        ops.last().touches(entry.0),
        forall|i: int| 0 <= i < before.len() ==> (#[trigger] before[i]).0 != entry.0,
    ensures
        in_touch_order(before.push(entry), ops),
{
    let s = before.push(entry);
    assert forall|i: int| 0 <= i < before.len() implies s[i] == before[i] && last_touch(
        ops,
        (#[trigger] s[i]).0,
    ) < ops.len() - 1 by {
        lemma_last_touch(ops, before[i].0);
        let t = last_touch(ops, before[i].0);
        if t == ops.len() - 1 {
            assert(ops[t].touches(before[i].0));
        }
    }
    assert(s[before.len() as int] == entry);
}

/// An operation that touches none of the keys of a list in touch order leaves
/// it in touch order.
proof fn lemma_order_untouched<K, V>(s: Seq<(K, V)>, ops: Seq<Op<K, V>>)
    requires
        ops.len() > 0,
        in_touch_order(s, ops.drop_last()),
        forall|i: int| 0 <= i < s.len() ==> !ops.last().touches((#[trigger] s[i]).0),
    ensures
        in_touch_order(s, ops),
{
    assert forall|i: int| 0 <= i < s.len() implies last_touch(ops.drop_last(), (#[trigger] s[i]).0)
        == last_touch(ops, s[i].0) by {}
}

/// LRU order, for every sequence of operations: each entry that the cache
/// holds has been touched by a `get` or an `insert`, and the entries stand in
/// the order of their last touches. The front entry, which the next eviction
/// takes, is therefore the one touched longest ago.
pub proof fn lemma_run_in_touch_order<K, V>(capacity: nat, ops: Seq<Op<K, V>>)
    ensures
        in_touch_order(run(capacity, ops), ops),
    decreases ops.len(),
{
    if ops.len() > 0 {
        let front = ops.drop_last();
        let before = run(capacity, front);
        lemma_run_in_touch_order(capacity, front);
        lemma_run_valid(capacity, front);
        match ops.last() {
            Op::Get(k) => {
                if holds(before, k) {
                    let p = position(before, k);
                    lemma_order_after_touch(before, ops, p, before[p]);
                } else {
                    lemma_order_untouched(before, ops);
                }
            },
            Op::Insert(k, v) => {
                if holds(before, k) {
                    let p = position(before, k);
                    lemma_order_after_touch(before, ops, p, before[p]);
                } else if capacity == 0 {
                    lemma_order_untouched(before, ops);
                } else if before.len() >= capacity {
                    assert(before.drop_first() == before.remove(0));
                    lemma_order_after_removal(before, ops, 0);
                    lemma_order_after_push(before.remove(0), ops, (k, v));
                } else {
                    lemma_order_untouched(before, ops);
                    lemma_order_after_push(before, ops, (k, v));
                }
            },
            Op::Remove(k) => {
                if holds(before, k) {
                    lemma_order_after_removal(before, ops, position(before, k));
                } else {
                    lemma_order_untouched(before, ops);
                }
            },
        }
    }
}

/// The eviction victim, for every sequence of operations: when the cache is
/// full and a new key is inserted, the entry that leaves is the one whose last
/// touch lies furthest back, and every other entry stays.
pub proof fn lemma_evicts_least_recently_touched<K, V>(
    capacity: nat,
    ops: Seq<Op<K, V>>,
    k: K,
    v: V,
)
    requires
        capacity > 0,
        run(capacity, ops).len() == capacity,
        !holds(run(capacity, ops), k),
    ensures
        ({
            let s = run(capacity, ops);
            let after = run(capacity, ops.push(Op::Insert(k, v)));
            &&& !holds(after, s[0].0)
            &&& forall|i: int|
                1 <= i < s.len() ==> holds(after, (#[trigger] s[i]).0) && last_touch(ops, s[0].0)
                    < last_touch(ops, s[i].0)
        }),
{
    let s = run(capacity, ops);
    let longer = ops.push(Op::Insert(k, v));
    assert(longer.drop_last() == ops);
    let after = run(capacity, longer);
    assert(after == s.drop_first().push((k, v)));
    lemma_run_valid(capacity, ops);
    lemma_run_in_touch_order(capacity, ops);
    if holds(after, s[0].0) {
        let i = position(after, s[0].0);
        if i < after.len() - 1 {
            assert(after[i] == s[i + 1]);
        }
    }
    assert forall|i: int| 1 <= i < s.len() implies holds(after, (#[trigger] s[i]).0) by {
        assert(after[i - 1] == s[i]);
    }
}

/// The entry list after the entries of `news` have been inserted into `s` one
/// by one, first to last.
pub open spec fn insert_all<K, V>(s: Seq<(K, V)>, capacity: nat, news: Seq<(K, V)>) -> Seq<(K, V)>
    decreases news.len(),
{
    if news.len() == 0 {
        s
    } else {
        inserted(insert_all(s, capacity, news.drop_last()), capacity, news.last().0, news.last().1)
    }
}

/// Eviction goes from the front: inserting new keys into a full cache pushes
/// out one old entry for each, the least recently used first, so that the
/// entry at position `p` survives exactly `p` such insertions.
pub proof fn lemma_insert_all_new<K, V>(s: Seq<(K, V)>, capacity: nat, news: Seq<(K, V)>)
    requires
        distinct_keys(s),
        s.len() == capacity,
        distinct_keys(news),
        news.len() <= capacity,
        forall|i: int| 0 <= i < news.len() ==> !holds(s, (#[trigger] news[i]).0),
    ensures
        insert_all(s, capacity, news) == s.skip(news.len() as int) + news,
    decreases news.len(),
{
    if news.len() == 0 {
        assert(s.skip(0) + news =~= s);
    } else {
        let m = news.len() - 1;
        let front = news.drop_last();
        let (k, v) = news.last();
        assert forall|i: int| 0 <= i < front.len() implies !holds(s, (#[trigger] front[i]).0) by {
            assert(front[i] == news[i]);
        }
        lemma_insert_all_new(s, capacity, front);
        let r = insert_all(s, capacity, front);
        assert(r == s.skip(m) + front);
        if holds(r, k) {
            let i = position(r, k);
            if i < capacity - m {
                assert(r[i] == s[i + m]);
            } else {
                assert(r[i] == news[i - (capacity - m)]);
                assert(news[m].0 == k);
            }
        }
        assert(r.drop_first().push((k, v)) =~= s.skip(m + 1) + news);
    }
}

/// Touch-on-read, seen through eviction: after a `get` that hits `k` in a full
/// cache, insertions of new keys evict every other entry before they evict
/// `k`. Once all but one of the old entries have gone, the one left is `k`
/// with its value.
pub proof fn lemma_touched_survives_longest<K, V>(
    s: Seq<(K, V)>,
    capacity: nat,
    k: K,
    news: Seq<(K, V)>,
)
    requires
        distinct_keys(s),
        s.len() == capacity,
        holds(s, k),
        distinct_keys(news),
        news.len() == capacity - 1,
        forall|i: int| 0 <= i < news.len() ==> !holds(s, (#[trigger] news[i]).0),
    ensures
        insert_all(touched(s, k), capacity, news) == seq![s[position(s, k)]] + news,
{
    let t = touched(s, k);
    lemma_touched(s, k);
    lemma_insert_all_new(t, capacity, news);
    assert(t.skip(news.len() as int) =~= seq![s[position(s, k)]]);
}

} // verus!
