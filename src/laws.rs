//! Properties that span several calls on a cache.
use std::hash::Hash;
use vstd::prelude::*;
use crate::lru::LRUCache;
use crate::recency::{
    has_key, inserted, key_is_not, lemma_evict_last, lemma_filter_absent_key, lemma_filter_is_remove,
    lemma_touched, looked_up, lookup, touched, unique_keys,
};

verus! {

/// The entries after one call: `(k, Some(v))` stands for `insert(k, v)`,
/// `(k, None)` for `get(k)`.
pub open spec fn step<K, V>(s: Seq<(K, V)>, cap: nat, op: (K, Option<V>)) -> Seq<(K, V)> {
    match op.1 {
        Some(v) => inserted(s, cap, op.0, v),
        None => looked_up(s, op.0),
    }
}

/// The entries after the calls `ops`, in order.
pub open spec fn replay<K, V>(s: Seq<(K, V)>, cap: nat, ops: Seq<(K, Option<V>)>) -> Seq<(K, V)>
    decreases ops.len(),
{
    if ops.len() == 0 {
        s
    } else {
        step(replay(s, cap, ops.drop_last()), cap, ops.last())
    }
}

/// Some call of `ops` names key `x`.
pub open spec fn names_key<K, V>(ops: Seq<(K, Option<V>)>, x: K) -> bool {
    exists|m: int| 0 <= m < ops.len() && (#[trigger] ops[m]).0 == x
}

/// Looking up the same key twice in a row gives the same result both times,
/// and the second lookup leaves the entries as the first one left them.
pub proof fn lemma_get_twice<K: Copy + Eq + Hash, V: Copy>(c: &LRUCache<K, V>, k: K)
    requires
        c.wf(),
    ensures
        lookup(looked_up(c@, k), k) == lookup(c@, k),
        looked_up(looked_up(c@, k), k) == looked_up(c@, k),
{
    c.lemma_entries_valid();
    let s = c@;
    if let Some(v) = lookup(s, k) {
        lemma_touched(s, k, v);
        let t = touched(s, k, v);
        let f = s.filter(key_is_not(k));
        let m = seq![(k, v)];
        assert(t == m + f);
        assert forall|j: int| 0 <= j < f.len() implies (#[trigger] f[j]).0 != k by {
            assert(t[j + 1] == f[j]);
        }
        lemma_filter_absent_key(f, k);
        reveal(Seq::filter);
        Seq::filter_distributes_over_add(m, f, key_is_not(k));
        assert(m.drop_last() =~= Seq::<(K, V)>::empty());
        assert(!key_is_not::<K, V>(k)(m.last()));
        assert(m.drop_last().filter(key_is_not(k)) =~= Seq::<(K, V)>::empty());
        assert(m.filter(key_is_not(k)) =~= Seq::<(K, V)>::empty());
        assert(t.filter(key_is_not(k)) =~= f);
    }
}

/// What holds after the calls `ops`, none of which names `k`, starting from
/// entries `s` with `k` in front: while `k` stays, every entry ahead of it
/// was named by a call; once `k` is gone, so is every other entry of `s`
/// that no call named.
spec fn outlives<K, V>(s: Seq<(K, V)>, ops: Seq<(K, Option<V>)>, t: Seq<(K, V)>, k: K) -> bool {
    &&& unique_keys(t)
    &&& has_key(t, k) ==> forall|i: int, j: int|
        0 <= j < i < t.len() && (#[trigger] t[i]).0 == k ==> names_key(ops, (#[trigger] t[j]).0)
    &&& !has_key(t, k) ==> forall|j: int|
        1 <= j < s.len() && !names_key(ops, (#[trigger] s[j]).0) ==> !has_key(t, s[j].0)
}

/// One call moves an entry `t2[0]` with the call's key in front of the other
/// entries, all but one of them (`t[d]`) when `removes`; only the last entry
/// can be taken out when it holds `k`.
proof fn lemma_outlives_front<K, V>(
    s: Seq<(K, V)>,
    ops: Seq<(K, Option<V>)>,
    op: (K, Option<V>),
    t: Seq<(K, V)>,
    k: K,
    t2: Seq<(K, V)>,
    d: int,
    removes: bool,
)
    requires
        unique_keys(s),
        s.len() > 0,
        s[0].0 == k,
        outlives(s, ops, t, k),
        op.0 != k,
        unique_keys(t2),
        t2.len() > 0,
        t2[0].0 == op.0,
        removes ==> 0 <= d < t.len() && (t[d].0 == k ==> d == t.len() - 1),
        t2.drop_first() == (if removes { t.remove(d) } else { t }),
    ensures
        outlives(s, ops.push(op), t2, k),
{
    let ops2 = ops.push(op);
    let r = t2.drop_first();
    assert(r.len() == t2.len() - 1);
    assert(r.len() == if removes { t.len() - 1 } else { t.len() as int });
    // Each `t2[j]` with `j >= 1` is an entry of `t`, in the same relative order.
    assert forall|j: int| 1 <= j < t2.len() implies #[trigger] t2[j] == t[if removes && j - 1 >= d {
        j
    } else {
        j - 1
    }] by {
        assert(t2[j] == r[j - 1]);
        if removes {
            assert(r[j - 1] == t.remove(d)[j - 1]);
        }
    }
    assert forall|y: K| names_key(ops, y) implies #[trigger] names_key(ops2, y) by {
        let m = choose|m: int| 0 <= m < ops.len() && (#[trigger] ops[m]).0 == y;
        assert(ops2[m] == ops[m]);
    }
    assert(names_key(ops2, op.0)) by {
        assert(ops2[ops.len() as int] == op);
    }
    assert forall|y: K| #[trigger] has_key(t2, y) && y != op.0 implies exists|j1: int|
        0 <= j1 < t.len() && (!removes || j1 != d) && (#[trigger] t[j1]).0 == y by {
        let j = choose|j: int| 0 <= j < t2.len() && (#[trigger] t2[j]).0 == y;
        assert(j != 0);
        let j1 = if removes && j - 1 >= d { j } else { j - 1 };
        assert(t2[j] == t[j1]);
    }
    if has_key(t2, k) {
        assert(has_key(t, k)) by {
            let i = choose|i: int| 0 <= i < t2.len() && (#[trigger] t2[i]).0 == k;
            let i1 = if removes && i - 1 >= d { i } else { i - 1 };
            assert(t2[i] == t[i1]);
        }
        assert forall|i: int, j: int|
            0 <= j < i < t2.len() && (#[trigger] t2[i]).0 == k implies names_key(
            ops2,
            (#[trigger] t2[j]).0,
        ) by {
            if j > 0 {
                let i1 = if removes && i - 1 >= d { i } else { i - 1 };
                let j1 = if removes && j - 1 >= d { j } else { j - 1 };
                assert(t2[i] == t[i1] && t2[j] == t[j1]);
                assert(names_key(ops, t[j1].0));
            }
        }
    } else {
        assert forall|j: int|
            1 <= j < s.len() && !names_key(ops2, (#[trigger] s[j]).0) implies !has_key(t2, s[j].0) by {
            let y = s[j].0;
            assert(!names_key(ops, y));
            assert(y != op.0);
            if has_key(t2, y) {
                let j1 = choose|j1: int|
                    0 <= j1 < t.len() && (!removes || j1 != d) && (#[trigger] t[j1]).0 == y;
                if has_key(t, k) {
                    // `k` was in `t` and is not in `t2`: it was `t[d]`, the last entry.
                    assert(removes && t[d].0 == k) by {
                        let i = choose|i: int| 0 <= i < t.len() && (#[trigger] t[i]).0 == k;
                        if !removes || i != d {
                            let i2 = if removes && i > d { i } else { i + 1 };
                            assert(t2[i2] == t[i]);
                        }
                    }
                    assert(j1 < d);
                    assert(names_key(ops, t[j1].0));
                } else {
                    assert(has_key(t, y));
                }
            }
        }
    }
}

/// One call, which does not name `k`, keeps `outlives`.
proof fn lemma_outlives_step<K, V>(
    s: Seq<(K, V)>,
    cap: nat,
    ops: Seq<(K, Option<V>)>,
    op: (K, Option<V>),
    t: Seq<(K, V)>,
    k: K,
)
    requires
        unique_keys(s),
        s.len() > 0,
        cap > 0,
        s[0].0 == k,
        outlives(s, ops, t, k),
        op.0 != k,
    ensures
        outlives(s, ops.push(op), step(t, cap, op), k),
{
    let x = op.0;
    let t2 = step(t, cap, op);
    if has_key(t, x) {
        let v = match op.1 {
            Some(v) => v,
            None => lookup(t, x)->Some_0,
        };
        let d = choose|d: int| 0 <= d < t.len() && (#[trigger] t[d]).0 == x;
        lemma_touched(t, x, v);
        lemma_filter_is_remove(t, d);
        assert(t2 == touched(t, x, v));
        assert(t2.drop_first() =~= t.remove(d));
        lemma_outlives_front(s, ops, op, t, k, t2, d, true);
    } else {
        match op.1 {
            Some(v) => {
                if t.len() < cap {
                    lemma_touched(t, x, v);
                    assert forall|j: int| 0 <= j < t.len() implies (#[trigger] t[j]).0 != x by {
                        if t[j].0 == x {
                            assert(has_key(t, x));
                        }
                    }
                    lemma_filter_absent_key(t, x);
                    assert(t2 == touched(t, x, v));
                    assert(t2.drop_first() =~= t);
                    lemma_outlives_front(s, ops, op, t, k, t2, 0, false);
                } else {
                    lemma_evict_last(t, x, v);
                    assert(t2.drop_first() =~= t.remove(t.len() - 1));
                    lemma_outlives_front(s, ops, op, t, k, t2, t.len() - 1, true);
                }
            },
            None => {
                assert(t2 == t);
                assert forall|y: K| names_key(ops, y) implies #[trigger] names_key(ops.push(op), y) by {
                    let m = choose|m: int| 0 <= m < ops.len() && (#[trigger] ops[m]).0 == y;
                    assert(ops.push(op)[m] == ops[m]);
                }
            },
        }
    }
}

/// A key just promoted to the front is not evicted before every other entry
/// that was in the cache with it has been evicted or named by a later call:
/// over any run of later calls that do not name `k`, while `k` stays every
/// entry ahead of it was named by one of those calls, and once `k` is gone
/// no entry of the earlier cache that no call named is left.
pub proof fn lemma_promoted_outlives_others<K: Copy + Eq + Hash, V: Copy>(
    c: &LRUCache<K, V>,
    k: K,
    ops: Seq<(K, Option<V>)>,
)
    requires
        c.wf(),
        c@.len() > 0,
        c@[0].0 == k,
        forall|m: int| 0 <= m < ops.len() ==> (#[trigger] ops[m]).0 != k,
    ensures
        ({
            let t = replay(c@, c.cap(), ops);
            &&& has_key(t, k) ==> forall|i: int, j: int|
                0 <= j < i < t.len() && (#[trigger] t[i]).0 == k ==> names_key(ops, (#[trigger] t[j]).0)
            &&& !has_key(t, k) ==> forall|j: int|
                1 <= j < c@.len() && !names_key(ops, (#[trigger] c@[j]).0) ==> !has_key(t, c@[j].0)
        }),
{
    c.lemma_entries_valid();
    lemma_outlives_replay(c@, c.cap(), ops, k);
}

/// `outlives` holds after any run of calls that do not name `k`.
proof fn lemma_outlives_replay<K, V>(s: Seq<(K, V)>, cap: nat, ops: Seq<(K, Option<V>)>, k: K)
    requires
        unique_keys(s),
        0 < s.len() <= cap,
        s[0].0 == k,
        forall|m: int| 0 <= m < ops.len() ==> (#[trigger] ops[m]).0 != k,
    ensures
        outlives(s, ops, replay(s, cap, ops), k),
    decreases ops.len(),
{
    if ops.len() == 0 {
        assert(has_key(s, k)) by {
            assert(s[0].0 == k);
        }
        assert forall|i: int, j: int|
            0 <= j < i < s.len() && (#[trigger] s[i]).0 == k implies names_key(ops, (#[trigger] s[j]).0) by {
            assert(s[i].0 == s[0].0);
        }
    } else {
        let pre = ops.drop_last();
        assert forall|m: int| 0 <= m < pre.len() implies (#[trigger] pre[m]).0 != k by {
            assert(pre[m] == ops[m]);
        }
        lemma_outlives_replay(s, cap, pre, k);
        assert(ops.last().0 != k);
        lemma_outlives_step(s, cap, pre, ops.last(), replay(s, cap, pre), k);
        assert(pre.push(ops.last()) =~= ops);
    }
}

} // verus!
