//! The mathematical model of a cache: its entries as a sequence of key-value
//! pairs, most recently used first, and how each operation changes it.
use vstd::prelude::*;

verus! {

/// Whether some entry of `s` has key `k`.
pub open spec fn has_key<K, V>(s: Seq<(K, V)>, k: K) -> bool {
    exists|i: int| 0 <= i < s.len() && (#[trigger] s[i]).0 == k
}

/// No key occurs twice in `s`.
pub open spec fn unique_keys<K, V>(s: Seq<(K, V)>) -> bool {
    forall|i: int, j: int|
        0 <= i < s.len() && 0 <= j < s.len() && i != j ==> (#[trigger] s[i]).0 != (#[trigger] s[j]).0
}

/// The value stored under `k`, if any.
pub open spec fn lookup<K, V>(s: Seq<(K, V)>, k: K) -> Option<V> {
    if has_key(s, k) {
        Some(s[choose|i: int| 0 <= i < s.len() && (#[trigger] s[i]).0 == k].1)
    } else {
        None
    }
}

/// Holds of the entries whose key is not `k`.
pub open spec fn key_is_not<K, V>(k: K) -> spec_fn((K, V)) -> bool {
    |e: (K, V)| e.0 != k
}

/// `s` with the entry for `k` (if any) taken out and `(k, v)` put in front.
pub open spec fn touched<K, V>(s: Seq<(K, V)>, k: K, v: V) -> Seq<(K, V)> {
    seq![(k, v)] + s.filter(key_is_not(k))
}

/// The entries after an insert of `(k, v)` into a cache of capacity `cap`
/// holding `s`: an existing key is updated and promoted; a new key goes in
/// front, and when the cache is full the last (least recently used) entry
/// leaves. A cache of capacity zero holds nothing and stays as it is.
pub open spec fn inserted<K, V>(s: Seq<(K, V)>, cap: nat, k: K, v: V) -> Seq<(K, V)> {
    if has_key(s, k) {
        touched(s, k, v)
    } else if s.len() < cap {
        seq![(k, v)] + s
    } else if cap == 0 {
        s
    } else {
        seq![(k, v)] + s.drop_last()
    }
}

/// The entries after a lookup of `k`: a hit promotes the entry to the front,
/// a miss changes nothing.
pub open spec fn looked_up<K, V>(s: Seq<(K, V)>, k: K) -> Seq<(K, V)> {
    match lookup(s, k) {
        Some(v) => touched(s, k, v),
        None => s,
    }
}

/// Filtering out a key that no entry has leaves the entries as they are.
pub proof fn lemma_filter_absent_key<K, V>(s: Seq<(K, V)>, k: K)
    requires
        forall|j: int| 0 <= j < s.len() ==> (#[trigger] s[j]).0 != k,
    ensures
        s.filter(key_is_not(k)) == s,
    decreases s.len(),
{
    reveal(Seq::filter);
    if s.len() > 0 {
        lemma_filter_absent_key(s.drop_last(), k);
        assert(key_is_not::<K, V>(k)(s.last()));
        assert(s.drop_last().push(s.last()) =~= s);
    }
}

/// With unique keys, filtering out the key of entry `i` removes exactly
/// that entry.
pub proof fn lemma_filter_is_remove<K, V>(s: Seq<(K, V)>, i: int)
    requires
        unique_keys(s),
        0 <= i < s.len(),
    ensures
        s.filter(key_is_not(s[i].0)) == s.remove(i),
{
    reveal(Seq::filter);
    let k = s[i].0;
    let a = s.take(i);
    let b = s.skip(i + 1);
    let m = seq![s[i]];
    assert(s =~= a + m + b);
    assert(a + m + b == a + (m + b)) by {
        assert(a + m + b =~= a + (m + b));
    }
    Seq::filter_distributes_over_add(a, m + b, key_is_not(k));
    Seq::filter_distributes_over_add(m, b, key_is_not(k));
    assert forall|j: int| 0 <= j < a.len() implies (#[trigger] a[j]).0 != k by {
        assert(a[j] == s[j]);
    }
    assert forall|j: int| 0 <= j < b.len() implies (#[trigger] b[j]).0 != k by {
        assert(b[j] == s[i + 1 + j]);
    }
    lemma_filter_absent_key(a, k);
    lemma_filter_absent_key(b, k);
    assert(m.drop_last() =~= Seq::<(K, V)>::empty());
    assert(!key_is_not::<K, V>(k)(m.last()));
    assert(m.drop_last().filter(key_is_not(k)) =~= Seq::<(K, V)>::empty());
    assert(m.filter(key_is_not(k)) =~= Seq::<(K, V)>::empty());
    assert(s.remove(i) =~= a + b);
}

/// With unique keys, looking up the key of entry `i` finds entry `i`.
pub proof fn lemma_lookup_at<K, V>(s: Seq<(K, V)>, i: int)
    requires
        unique_keys(s),
        0 <= i < s.len(),
    ensures
        has_key(s, s[i].0),
        lookup(s, s[i].0) == Some(s[i].1),
{
    assert(s[i].0 == s[i].0);
}

/// `t` is `s` with `(k, v)` in front and no other entry for `k`: keys are
/// unique, and every key but `k` keeps its value.
pub open spec fn front_entry_of<K, V>(s: Seq<(K, V)>, t: Seq<(K, V)>, k: K, v: V) -> bool {
    &&& unique_keys(t)
    &&& t[0] == (k, v)
    &&& forall|j: int| 1 <= j < t.len() ==> (#[trigger] t[j]).0 != k
    &&& forall|x: K| #[trigger] has_key(t, x) <==> x == k || has_key(s, x)
    &&& forall|x: K| #[trigger] lookup(t, x) == (if x == k { Some(v) } else { lookup(s, x) })
}

/// Putting `(k, v)` in front of entries without `k`.
proof fn lemma_push_front<K, V>(s: Seq<(K, V)>, k: K, v: V)
    requires
        unique_keys(s),
        !has_key(s, k),
    ensures
        front_entry_of(s, seq![(k, v)] + s, k, v),
{
    let t = seq![(k, v)] + s;
    assert forall|j: int| 1 <= j < t.len() implies (#[trigger] t[j]).0 != k by {
        assert(t[j] == s[j - 1]);
    }
    assert forall|a: int, b: int|
        0 <= a < t.len() && 0 <= b < t.len() && a != b implies (#[trigger] t[a]).0 != (
        #[trigger] t[b]).0 by {
        if a > 0 {
            assert(t[a] == s[a - 1]);
        }
        if b > 0 {
            assert(t[b] == s[b - 1]);
        }
    }
    assert forall|x: K| #[trigger] has_key(t, x) <==> x == k || has_key(s, x) by {
        if has_key(t, x) && x != k {
            let j = choose|j: int| 0 <= j < t.len() && (#[trigger] t[j]).0 == x;
            assert(s[j - 1].0 == x);
        }
        if has_key(s, x) {
            let j = choose|j: int| 0 <= j < s.len() && (#[trigger] s[j]).0 == x;
            assert(t[j + 1].0 == x);
        }
        assert(t[0].0 == k);
    }
    assert forall|x: K| #[trigger] lookup(t, x) == (if x == k { Some(v) } else { lookup(s, x) }) by {
        if x == k {
            lemma_lookup_at(t, 0);
        } else if has_key(s, x) {
            let j = choose|j: int| 0 <= j < s.len() && (#[trigger] s[j]).0 == x;
            lemma_lookup_at(s, j);
            assert(t[j + 1] == s[j]);
            lemma_lookup_at(t, j + 1);
        }
    }
}

/// Putting `(k, v)` in front in place of entry `i`, whose key is `k`.
proof fn lemma_move_front<K, V>(s: Seq<(K, V)>, i: int, k: K, v: V)
    requires
        unique_keys(s),
        0 <= i < s.len(),
        s[i].0 == k,
    ensures
        front_entry_of(s, seq![(k, v)] + s.remove(i), k, v),
{
    let r = s.remove(i);
    let t = seq![(k, v)] + r;
    assert forall|j: int| 0 <= j < r.len() implies #[trigger] r[j] == s[if j < i { j } else { j + 1 }]
        by {}
    assert forall|j: int| 1 <= j < t.len() implies (#[trigger] t[j]).0 != k by {
        assert(t[j] == r[j - 1]);
        let j1 = if j - 1 < i { j - 1 } else { j };
        assert(r[j - 1] == s[j1]);
    }
    assert forall|a: int, b: int|
        0 <= a < t.len() && 0 <= b < t.len() && a != b implies (#[trigger] t[a]).0 != (
        #[trigger] t[b]).0 by {
        if a > 0 && b > 0 {
            let a1 = if a - 1 < i { a - 1 } else { a };
            let b1 = if b - 1 < i { b - 1 } else { b };
            assert(t[a] == r[a - 1] && r[a - 1] == s[a1]);
            assert(t[b] == r[b - 1] && r[b - 1] == s[b1]);
        } else if a > 0 {
            assert(t[a] == r[a - 1]);
        } else {
            assert(t[b] == r[b - 1]);
        }
    }
    assert forall|x: K| #[trigger] has_key(t, x) <==> x == k || has_key(s, x) by {
        if has_key(t, x) && x != k {
            let j = choose|j: int| 0 <= j < t.len() && (#[trigger] t[j]).0 == x;
            let j1 = if j - 1 < i { j - 1 } else { j };
            assert(t[j] == r[j - 1] && r[j - 1] == s[j1]);
        }
        if has_key(s, x) && x != k {
            let j = choose|j: int| 0 <= j < s.len() && (#[trigger] s[j]).0 == x;
            let j1 = if j < i { j } else { j - 1 };
            assert(r[j1] == s[j]);
            assert(t[j1 + 1] == r[j1]);
        }
        assert(t[0].0 == k);
    }
    assert forall|x: K| #[trigger] lookup(t, x) == (if x == k { Some(v) } else { lookup(s, x) }) by {
        if x == k {
            lemma_lookup_at(t, 0);
        } else if has_key(s, x) {
            let j = choose|j: int| 0 <= j < s.len() && (#[trigger] s[j]).0 == x;
            lemma_lookup_at(s, j);
            let j1 = if j < i { j } else { j - 1 };
            assert(r[j1] == s[j]);
            assert(t[j1 + 1] == s[j]);
            lemma_lookup_at(t, j1 + 1);
        } else {
            assert(!has_key(t, x));
        }
    }
}

/// What promoting `(k, v)` does: `k` comes first with value `v`, keys stay
/// unique, every other key keeps its value, and the length grows only when
/// `k` was absent.
pub proof fn lemma_touched<K, V>(s: Seq<(K, V)>, k: K, v: V)
    requires
        unique_keys(s),
    ensures
        front_entry_of(s, touched(s, k, v), k, v),
        touched(s, k, v).len() == (if has_key(s, k) { s.len() } else { s.len() + 1 }),
{
    if has_key(s, k) {
        let i = choose|i: int| 0 <= i < s.len() && (#[trigger] s[i]).0 == k;
        lemma_filter_is_remove(s, i);
        lemma_move_front(s, i, k, v);
    } else {
        assert forall|j: int| 0 <= j < s.len() implies (#[trigger] s[j]).0 != k by {
            if s[j].0 == k {
                assert(has_key(s, k));
            }
        }
        lemma_filter_absent_key(s, k);
        lemma_push_front(s, k, v);
    }
}

/// Putting `(k, v)` in front of all but the last of `s`: the last key goes,
/// every other key keeps its value.
pub proof fn lemma_evict_last<K, V>(s: Seq<(K, V)>, k: K, v: V)
    requires
        unique_keys(s),
        s.len() > 0,
        !has_key(s, k),
    ensures
        ({
            let t = seq![(k, v)] + s.drop_last();
            &&& front_entry_of(s.drop_last(), t, k, v)
            &&& !has_key(t, s.last().0)
            &&& forall|j: int| 0 <= j < s.len() - 1 ==> lookup(t, (#[trigger] s[j]).0) == Some(s[j].1)
            &&& forall|x: K| has_key(t, x) <==> x == k || (has_key(s, x) && x != s.last().0)
        }),
{
    let d = s.drop_last();
    let t = seq![(k, v)] + d;
    let last = s.len() - 1;
    assert forall|a: int, b: int|
        0 <= a < d.len() && 0 <= b < d.len() && a != b implies (#[trigger] d[a]).0 != (
        #[trigger] d[b]).0 by {
        assert(d[a] == s[a] && d[b] == s[b]);
    }
    assert(!has_key(d, k)) by {
        if has_key(d, k) {
            let j = choose|j: int| 0 <= j < d.len() && (#[trigger] d[j]).0 == k;
            assert(s[j].0 == k);
        }
    }
    lemma_push_front(d, k, v);
    assert(!has_key(d, s[last].0)) by {
        if has_key(d, s[last].0) {
            let j = choose|j: int| 0 <= j < d.len() && (#[trigger] d[j]).0 == s[last].0;
            assert(s[j] == d[j]);
        }
    }
    assert(s[last].0 != k) by {
        assert(s[last] == s[last]);
    }
    assert forall|j: int| 0 <= j < s.len() - 1 implies lookup(t, (#[trigger] s[j]).0) == Some(s[j].1) by {
        assert(d[j] == s[j]);
        lemma_lookup_at(d, j);
        assert(s[j].0 != k);
    }
    assert forall|x: K| has_key(t, x) <==> x == k || (has_key(s, x) && x != s.last().0) by {
        if has_key(d, x) {
            let j = choose|j: int| 0 <= j < d.len() && (#[trigger] d[j]).0 == x;
            assert(s[j] == d[j]);
        }
        if has_key(s, x) && x != s.last().0 {
            let j = choose|j: int| 0 <= j < s.len() && (#[trigger] s[j]).0 == x;
            assert(d[j] == s[j]);
        }
    }
}

} // verus!
