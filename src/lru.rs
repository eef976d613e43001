//! The cache itself: a node arena, a hash index and a recency list.
use std::collections::HashMap;
use std::hash::Hash;
use vstd::prelude::*;
use vstd::std_specs::hash::obeys_key_model;
use crate::recency::{
    has_key, inserted, key_is_not, lemma_evict_last, lemma_filter_absent_key, lemma_filter_is_remove,
    lemma_touched, looked_up, lookup, touched, unique_keys,
};

verus! {

broadcast use vstd::std_specs::hash::group_hash_axioms;

/// One entry of the arena, with the positions of its neighbours in the
/// recency list.
#[derive(Clone, Copy)]
struct Node<K, V> {
    key: K,
    value: V,
    prev: Option<usize>,
    next: Option<usize>,
}

/// A cache of at most `capacity` entries that evicts the least recently
/// used one.
pub struct LRUCache<K, V> {
    capacity: usize,
    size: usize,
    head: Option<usize>,
    tail: Option<usize>,
    map: HashMap<K, usize>,
    cache: Vec<Node<K, V>>,
    order: Ghost<Seq<usize>>,
}

/// The node at `order[i]` exists and links back to `order[i - 1]` and forward
/// to `order[i + 1]`, or to nothing at either end.
spec fn linked_at<K, V>(nodes: Seq<Node<K, V>>, order: Seq<usize>, i: int) -> bool {
    &&& order[i] < nodes.len()
    &&& nodes[order[i] as int].prev == (if i == 0 { None } else { Some(order[i - 1]) })
    &&& nodes[order[i] as int].next == (if i + 1 == order.len() { None } else { Some(order[i + 1]) })
}

/// `order` lists distinct positions of `nodes`, and the links of those nodes,
/// together with `head` and `tail`, form exactly the doubly linked list
/// `order[0], order[1], ...`.
spec fn links_ok<K, V>(
    nodes: Seq<Node<K, V>>,
    head: Option<usize>,
    tail: Option<usize>,
    order: Seq<usize>,
) -> bool {
    &&& order.no_duplicates()
    &&& head == (if order.len() == 0 { None } else { Some(order[0]) })
    &&& tail == (if order.len() == 0 { None } else { Some(order.last()) })
    &&& forall|i: int| 0 <= i < order.len() ==> #[trigger] linked_at(nodes, order, i)
}

/// The positions met by following forward links from `start`, at most `n`
/// of them.
spec fn walk<K, V>(nodes: Seq<Node<K, V>>, start: Option<usize>, n: nat) -> Seq<usize>
    decreases n,
{
    if n == 0 {
        Seq::empty()
    } else {
        match start {
            None => Seq::empty(),
            Some(p) => if p < nodes.len() {
                seq![p] + walk(nodes, nodes[p as int].next, (n - 1) as nat)
            } else {
                Seq::empty()
            },
        }
    }
}

/// Walking a well-linked list from `order[k]` visits the rest of `order`.
proof fn lemma_walk<K, V>(
    nodes: Seq<Node<K, V>>,
    head: Option<usize>,
    tail: Option<usize>,
    order: Seq<usize>,
    k: int,
)
    requires
        links_ok(nodes, head, tail, order),
        0 <= k < order.len(),
    ensures
        walk(nodes, Some(order[k]), (order.len() - k) as nat) == order.subrange(k, order.len() as int),
    decreases order.len() - k,
{
    assert(linked_at(nodes, order, k));
    if k + 1 < order.len() {
        lemma_walk(nodes, head, tail, order, k + 1);
        assert(order.subrange(k, order.len() as int) =~= seq![order[k]] + order.subrange(
            k + 1,
            order.len() as int,
        ));
    } else {
        assert(walk(nodes, nodes[order[k] as int].next, 0) == Seq::<usize>::empty());
        assert(order.subrange(k, order.len() as int) =~= seq![order[k]]);
    }
}

/// Sets the backward link of node `p`.
fn set_prev<K: Copy, V: Copy>(nodes: &mut Vec<Node<K, V>>, p: usize, l: Option<usize>)
    requires
        p < old(nodes)@.len(),
    ensures
        final(nodes)@ == old(nodes)@.update(
            p as int,
            (Node { prev: l, ..old(nodes)@[p as int] }),
        ),
{
    let n = nodes[p];
    nodes.set(p, Node { prev: l, ..n });
}

/// Sets the forward link of node `p`.
fn set_next<K: Copy, V: Copy>(nodes: &mut Vec<Node<K, V>>, p: usize, l: Option<usize>)
    requires
        p < old(nodes)@.len(),
    ensures
        final(nodes)@ == old(nodes)@.update(
            p as int,
            (Node { next: l, ..old(nodes)@[p as int] }),
        ),
{
    let n = nodes[p];
    nodes.set(p, Node { next: l, ..n });
}

/// Sets the key and value of node `p`, keeping its links.
fn set_entry<K: Copy, V: Copy>(nodes: &mut Vec<Node<K, V>>, p: usize, key: K, value: V)
    requires
        p < old(nodes)@.len(),
    ensures
        final(nodes)@ == old(nodes)@.update(
            p as int,
            (Node { key, value, ..old(nodes)@[p as int] }),
        ),
{
    let n = nodes[p];
    nodes.set(p, Node { key, value, ..n });
}

/// Nodes at the same positions hold the same keys and values.
spec fn same_payload<K, V>(a: Seq<Node<K, V>>, b: Seq<Node<K, V>>) -> bool {
    &&& a.len() == b.len()
    &&& forall|q: int| 0 <= q < a.len() ==> (#[trigger] a[q]).key == b[q].key && a[q].value == b[q].value
}

impl<K, V> View for LRUCache<K, V> {
    type V = Seq<(K, V)>;

    /// The entries, most recently used first.
    closed spec fn view(&self) -> Seq<(K, V)> {
        self.order@.map_values(|p: usize| (self.cache@[p as int].key, self.cache@[p as int].value))
    }
}

impl<K: Copy + Eq + Hash, V: Copy> LRUCache<K, V> {

    /// The most entries the cache holds at once.
    pub closed spec fn cap(&self) -> nat {
        self.capacity as nat
    }

    /// The internal invariant: the arena is full up to `size`, the recency
    /// list runs over every position of it once, and the index maps each
    /// stored key to its position and holds nothing else.
    pub closed spec fn wf(&self) -> bool {
        &&& obeys_key_model::<K>()
        &&& self.size <= self.capacity
        &&& self.cache@.len() == self.size
        &&& self.order@.len() == self.size
        &&& links_ok(self.cache@, self.head, self.tail, self.order@)
        &&& forall|p: usize| p < self.size ==> #[trigger] self.order@.contains(p)
        &&& forall|p: int|
            0 <= p < self.size ==> #[trigger] self.map@.contains_key(self.cache@[p].key)
                && self.map@[self.cache@[p].key] == p
        &&& forall|k: K|
            #[trigger] self.map@.contains_key(k) ==> self.map@[k] < self.size
                && self.cache@[self.map@[k] as int].key == k
    }

    /// The positions visited by following forward links `size` times from
    /// the head of the recency list.
    pub closed spec fn list_positions(&self) -> Seq<usize> {
        walk(self.cache@, self.head, self.size as nat)
    }

    /// The position at the tail of the recency list, if any.
    pub closed spec fn tail_position(&self) -> Option<usize> {
        self.tail
    }

    /// The key stored at arena position `p`.
    pub closed spec fn key_at(&self, p: usize) -> K {
        self.cache@[p as int].key
    }

    /// The index, from key to arena position.
    pub closed spec fn index(&self) -> Map<K, usize> {
        self.map@
    }

    /// No key occurs twice among the entries, and there are never more
    /// entries than the capacity.
    pub proof fn lemma_entries_valid(&self)
        requires
            self.wf(),
        ensures
            unique_keys(self@),
            self@.len() <= self.cap(),
    {
        self.lemma_view();
    }

    /// The index and the recency list agree: following forward links from
    /// the head `size` times visits distinct positions, ends at the tail,
    /// and meets the entries in recency order; the index holds exactly the
    /// keys stored at those positions, each mapped to its own position.
    pub proof fn lemma_index_agrees_with_list(&self)
        requires
            self.wf(),
        ensures
            self.list_positions().len() == self@.len(),
            self.list_positions().no_duplicates(),
            self.tail_position() == (if self@.len() == 0 {
                None
            } else {
                Some(self.list_positions().last())
            }),
            forall|i: int|
                0 <= i < self@.len() ==> #[trigger] self.key_at(self.list_positions()[i])
                    == self@[i].0,
            forall|k: K|
                self.index().contains_key(k) <==> exists|i: int|
                    0 <= i < self@.len() && #[trigger] self.key_at(self.list_positions()[i]) == k,
            forall|i: int|
                0 <= i < self@.len() ==> self.index()[#[trigger] self.key_at(
                    self.list_positions()[i],
                )] == self.list_positions()[i],
    {
        self.lemma_view();
        let o = self.order@;
        if o.len() > 0 {
            lemma_walk(self.cache@, self.head, self.tail, o, 0);
            assert(o.subrange(0, o.len() as int) =~= o);
        }
        assert(self.list_positions() == o);
        assert forall|k: K| self.index().contains_key(k) <==> exists|i: int|
            0 <= i < self@.len() && #[trigger] self.key_at(self.list_positions()[i]) == k by {
            if self.index().contains_key(k) {
                assert(has_key(self@, k));
                let i = choose|i: int| 0 <= i < self@.len() && (#[trigger] self@[i]).0 == k;
                assert(self.key_at(o[i]) == k);
            }
            if exists|i: int| 0 <= i < self@.len() && #[trigger] self.key_at(self.list_positions()[i]) == k {
                let i = choose|i: int|
                    0 <= i < self@.len() && #[trigger] self.key_at(self.list_positions()[i]) == k;
                assert(self@[i].0 == k);
            }
        }
        assert forall|i: int| 0 <= i < self@.len() implies self.index()[#[trigger] self.key_at(
            self.list_positions()[i],
        )] == self.list_positions()[i] by {
            assert(linked_at(self.cache@, o, i));
            assert(self.map@.contains_key(self.cache@[o[i] as int].key));
        }
    }

    /// The most entries the cache holds at once.
    pub fn capacity(&self) -> (r: usize)
        ensures
            r == self.cap(),
    {
        self.capacity
    }

    /// The number of entries held.
    pub fn size(&self) -> (r: usize)
        requires
            self.wf(),
        ensures
            r == self@.len(),
    {
        self.size
    }

    /// An empty cache that holds at most `capacity` entries. With capacity
    /// zero it never holds an entry: every insert leaves it empty.
    pub fn new(capacity: usize) -> (r: Self)
        requires
            obeys_key_model::<K>(),
        ensures
            r.wf(),
            r@ == Seq::<(K, V)>::empty(),
            r.cap() == capacity,
    {
        LRUCache {
            capacity,
            size: 0,
            head: None,
            tail: None,
            map: HashMap::new(),
            cache: Vec::with_capacity(capacity),
            order: Ghost(Seq::empty()),
        }
    }

    /// Inserts `value` under `key` and makes the entry the most recently
    /// used one. An existing key keeps its position in the arena and gets
    /// the new value. A new key takes the next free position while the
    /// cache is below capacity; once it is full, the least recently used
    /// entry is evicted and its position reused. A cache of capacity zero
    /// stays empty.
    pub fn insert(&mut self, key: K, value: V)
        requires
            old(self).wf(),
        ensures
            final(self).wf(),
            final(self).cap() == old(self).cap(),
            final(self)@ == inserted(old(self)@, old(self).cap(), key, value),
            final(self)@.len() <= final(self).cap(),
            old(self).cap() > 0 ==> lookup(final(self)@, key) == Some(value),
            has_key(old(self)@, key) ==> {
                &&& final(self)@.len() == old(self)@.len()
                &&& forall|k: K| has_key(old(self)@, k) ==> #[trigger] has_key(final(self)@, k)
            },
            !has_key(old(self)@, key) && old(self)@.len() == old(self).cap() && old(self).cap() > 0
                ==> {
                &&& !has_key(final(self)@, old(self)@.last().0)
                &&& forall|j: int|
                    0 <= j < old(self)@.len() - 1 ==> lookup(final(self)@, (#[trigger] old(
                        self,
                    )@[j]).0) == Some(old(self)@[j].1)
            },
    {
        let ghost s = self@;
        proof {
            self.lemma_view();
        }
        match self.map.get(&key) {
            Some(ix) => {
                let p = *ix;
                let ghost i = choose|i: int| 0 <= i < self.order@.len() && self.order@[i] == p;
                proof {
                    assert(self.order@.contains(p));
                    assert(s[i].0 == key);
                }
                self.update_existing(p, Ghost(i), value);
                proof {
                    lemma_touched(s, key, value);
                    lemma_filter_is_remove(s, i);
                    assert forall|k: K| has_key(s, k) implies #[trigger] has_key(self@, k) by {
                        let j = choose|j: int| 0 <= j < s.len() && (#[trigger] s[j]).0 == k;
                        if j < i {
                            assert(self@[j + 1] == s[j]);
                        } else if j > i {
                            assert(self@[j] == s[j]);
                        } else {
                            assert(self@[0].0 == k);
                        }
                    }
                }
            },
            None => {
                if self.size < self.capacity {
                    self.push_new(key, value);
                    proof {
                        lemma_touched(s, key, value);
                        lemma_filter_absent_key(s, key);
                    }
                } else if self.size > 0 {
                    self.recycle_tail(key, value);
                    proof {
                        lemma_evict_last(s, key, value);
                    }
                }
            },
        }
    }

    /// Looks up `key`. A hit makes the entry the most recently used one and
    /// hands back its value; a miss changes nothing.
    pub fn get(&mut self, key: K) -> (r: Option<V>)
        requires
            old(self).wf(),
        ensures
            final(self).wf(),
            final(self).cap() == old(self).cap(),
            r == lookup(old(self)@, key),
            final(self)@ == looked_up(old(self)@, key),
            r matches Some(v) ==> final(self)@[0] == (key, v),
            final(self)@.len() <= final(self).cap(),
    {
        let ghost s = self@;
        proof {
            self.lemma_view();
        }
        match self.map.get(&key) {
            Some(ix) => {
                let p = *ix;
                let ghost i = choose|i: int| 0 <= i < self.order@.len() && self.order@[i] == p;
                proof {
                    assert(self.order@.contains(p));
                    assert(s[i].0 == key);
                }
                self.promote(p, Ghost(i));
                proof {
                    self.lemma_view();
                    lemma_touched(s, key, s[i].1);
                }
                Some(self.cache[p].value)
            },
            None => None,
        }
    }

    /// What the invariant gives of the entries: entry `i` is the node at
    /// `order[i]`, keys are unique, and a key is stored iff the index has it.
    proof fn lemma_view(&self)
        requires
            self.wf(),
        ensures
            self@.len() == self.size,
            forall|i: int|
                0 <= i < self.size ==> #[trigger] self@[i] == (
                    self.cache@[self.order@[i] as int].key,
                    self.cache@[self.order@[i] as int].value,
                ),
            unique_keys(self@),
            forall|k: K| has_key(self@, k) <==> #[trigger] self.map@.contains_key(k),
    {
        let s = self@;
        let o = self.order@;
        assert forall|i: int| 0 <= i < self.size implies (#[trigger] o[i]) < self.size by {
            assert(linked_at(self.cache@, o, i));
        }
        assert forall|a: int, b: int|
            0 <= a < s.len() && 0 <= b < s.len() && a != b implies (#[trigger] s[a]).0 != (
            #[trigger] s[b]).0 by {
            assert(o[a] < self.size && o[b] < self.size);
            assert(o[a] != o[b]);
            assert(self.map@.contains_key(self.cache@[o[a] as int].key));
            assert(self.map@.contains_key(self.cache@[o[b] as int].key));
        }
        assert forall|k: K| has_key(s, k) <==> #[trigger] self.map@.contains_key(k) by {
            if self.map@.contains_key(k) {
                let p = self.map@[k];
                assert(o.contains(p));
                let i = choose|i: int| 0 <= i < o.len() && o[i] == p;
                assert(s[i].0 == k);
            }
            if has_key(s, k) {
                let i = choose|i: int| 0 <= i < s.len() && (#[trigger] s[i]).0 == k;
                assert(o[i] < self.size);
            }
        }
    }

    /// Moves the node at position `order[i]` to the front of the recency
    /// list: the single promotion step behind every access.
    fn move_to_front(&mut self, p: usize, Ghost(i): Ghost<int>)
        requires
            links_ok(old(self).cache@, old(self).head, old(self).tail, old(self).order@),
            0 <= i < old(self).order@.len(),
            old(self).order@[i] == p,
        ensures
            links_ok(final(self).cache@, final(self).head, final(self).tail, final(self).order@),
            final(self).order@ == seq![p] + old(self).order@.remove(i),
            same_payload(final(self).cache@, old(self).cache@),
            final(self).map == old(self).map,
            final(self).size == old(self).size,
            final(self).capacity == old(self).capacity,
    {
        let ghost o = self.order@;
        proof {
            assert(linked_at(self.cache@, o, i));
        }
        self.detach(p, Ghost(i));
        proof {
            assert forall|j: int| 0 <= j < self.order@.len() implies self.order@[j] != p by {
                if j < i {
                    assert(self.order@[j] == o[j]);
                } else {
                    assert(self.order@[j] == o[j + 1]);
                }
            }
        }
        self.attach_front(p);
    }

    /// Promotes the entry at position `order[i]` and relates the entries
    /// before and after.
    fn promote(&mut self, p: usize, Ghost(i): Ghost<int>)
        requires
            old(self).wf(),
            0 <= i < old(self).order@.len(),
            old(self).order@[i] == p,
        ensures
            final(self).wf(),
            final(self)@ == touched(old(self)@, old(self)@[i].0, old(self)@[i].1),
            same_payload(final(self).cache@, old(self).cache@),
            final(self).order@[0] == p,
            p < final(self).size,
            final(self).capacity == old(self).capacity,
    {
        let ghost s = self@;
        proof {
            self.lemma_view();
            lemma_filter_is_remove(s, i);
            assert(linked_at(self.cache@, self.order@, i));
        }
        self.move_to_front(p, Ghost(i));
        proof {
            let o = self.order@;
            assert forall|q: usize| q < self.size implies #[trigger] o.contains(q) by {
                assert(old(self).order@.contains(q));
                let j = choose|j: int| 0 <= j < old(self).order@.len() && old(self).order@[j] == q;
                if j < i {
                    assert(o[j + 1] == q);
                } else if j > i {
                    assert(o[j] == q);
                } else {
                    assert(o[0] == q);
                }
            }
            let t = seq![s[i]] + s.remove(i);
            let c0 = old(self).cache@;
            let o0 = old(self).order@;
            let c = self.cache@;
            assert forall|j: int| 0 <= j < o.len() implies #[trigger] self@[j] == t[j] by {
                let q = if j == 0 { i } else if j <= i { j - 1 } else { j };
                assert(o[j] == o0[q]);
                assert(o0[q] < c0.len()) by {
                    assert(linked_at(c0, o0, q));
                }
                assert(t[j] == s[q]);
                assert(s[q] == (c0[o0[q] as int].key, c0[o0[q] as int].value));
                assert(self@[j] == (c[o[j] as int].key, c[o[j] as int].value));
                assert(c[o[j] as int].key == c0[o[j] as int].key);
            }
            assert(o0[i] < c0.len()) by {
                assert(linked_at(c0, o0, i));
            }
            assert(self@ =~= t);
        }
    }

    /// Overwrites the entry at the front of the recency list with
    /// `(key, value)`; the caller brings the index in line.
    fn overwrite_front(&mut self, key: K, value: V)
        requires
            old(self).size > 0,
            old(self).cache@.len() == old(self).size,
            old(self).order@.len() == old(self).size,
            links_ok(old(self).cache@, old(self).head, old(self).tail, old(self).order@),
        ensures
            final(self).cache@ == old(self).cache@.update(
                old(self).order@[0] as int,
                (Node { key, value, ..old(self).cache@[old(self).order@[0] as int] }),
            ),
            links_ok(final(self).cache@, final(self).head, final(self).tail, final(self).order@),
            final(self)@ == old(self)@.update(0, (key, value)),
            final(self).order == old(self).order,
            final(self).map == old(self).map,
            final(self).size == old(self).size,
            final(self).capacity == old(self).capacity,
    {
        let ghost o = self.order@;
        let ghost c0 = self.cache@;
        let p = match self.head {
            Some(h) => h,
            None => 0,
        };
        proof {
            assert(linked_at(c0, o, 0));
        }
        set_entry(&mut self.cache, p, key, value);
        proof {
            let c = self.cache@;
            assert forall|j: int| 0 <= j < o.len() implies #[trigger] linked_at(c, o, j) by {
                assert(linked_at(c0, o, j));
            }
            let t = old(self)@.update(0, (key, value));
            assert forall|j: int| 0 <= j < o.len() implies #[trigger] self@[j] == t[j] by {
                assert(linked_at(c0, o, j));
                if j > 0 {
                    assert(o[j] != o[0]);
                }
            }
            assert(self@ =~= t);
        }
    }

    /// Updates the value of the entry at position `order[i]` and promotes it.
    fn update_existing(&mut self, p: usize, Ghost(i): Ghost<int>, value: V)
        requires
            old(self).wf(),
            0 <= i < old(self).order@.len(),
            old(self).order@[i] == p,
        ensures
            final(self).wf(),
            final(self)@ == touched(old(self)@, old(self)@[i].0, value),
            final(self).capacity == old(self).capacity,
    {
        self.promote(p, Ghost(i));
        let key = self.cache[p].key;
        let ghost mid = *self;
        self.overwrite_front(key, value);
        proof {
            assert forall|q: int|
                0 <= q < self.size implies #[trigger] self.map@.contains_key(self.cache@[q].key)
                && self.map@[self.cache@[q].key] == q by {
                assert(mid.map@.contains_key(mid.cache@[q].key));
                assert(mid.cache@[q].key == self.cache@[q].key);
            }
            assert(self@ =~= touched(old(self)@, old(self)@[i].0, value));
        }
    }

    /// Adds a new key in front, in the next free position of the arena.
    fn push_new(&mut self, key: K, value: V)
        requires
            old(self).wf(),
            !old(self).map@.contains_key(key),
            old(self).size < old(self).capacity,
        ensures
            final(self).wf(),
            final(self)@ == seq![(key, value)] + old(self)@,
            final(self).capacity == old(self).capacity,
    {
        let ghost o = self.order@;
        let ghost c0 = self.cache@;
        let p = self.size;
        self.cache.push(Node { key, value, prev: None, next: None });
        proof {
            let c = self.cache@;
            assert forall|j: int| 0 <= j < o.len() implies #[trigger] linked_at(c, o, j) by {
                assert(linked_at(c0, o, j));
            }
            assert(!o.contains(p)) by {
                if o.contains(p) {
                    let j = choose|j: int| 0 <= j < o.len() && o[j] == p;
                    assert(linked_at(c0, o, j));
                }
            }
        }
        self.attach_front(p);
        self.map.insert(key, p);
        self.size = self.size + 1;
        proof {
            let c = self.cache@;
            let o2 = self.order@;
            assert forall|q: usize| q < self.size implies #[trigger] o2.contains(q) by {
                if q < p {
                    assert(old(self).order@.contains(q));
                    let j = choose|j: int| 0 <= j < o.len() && o[j] == q;
                    assert(o2[j + 1] == q);
                } else {
                    assert(o2[0] == q);
                }
            }
            assert forall|q: int|
                0 <= q < self.size implies #[trigger] self.map@.contains_key(c[q].key)
                && self.map@[c[q].key] == q by {
                if q < p {
                    assert(old(self).map@.contains_key(c0[q].key));
                }
            }
            assert forall|k: K| #[trigger] self.map@.contains_key(k) implies self.map@[k]
                < self.size && c[self.map@[k] as int].key == k by {
                if k != key {
                    assert(old(self).map@.contains_key(k));
                }
            }
            let t = seq![(key, value)] + old(self)@;
            assert forall|j: int| 0 <= j < o2.len() implies #[trigger] self@[j] == t[j] by {
                if j > 0 {
                    assert(linked_at(c0, o, j - 1));
                }
            }
            assert(self@ =~= t);
        }
    }

    /// Puts `(key, value)` in front in place of the least recently used
    /// entry, reusing its position.
    fn recycle_tail(&mut self, key: K, value: V)
        requires
            old(self).wf(),
            !old(self).map@.contains_key(key),
            old(self).size > 0,
        ensures
            final(self).wf(),
            final(self)@ == seq![(key, value)] + old(self)@.drop_last(),
            final(self).capacity == old(self).capacity,
    {
        let ghost s = self@;
        let t = match self.tail {
            Some(t) => t,
            None => 0,
        };
        let ghost last = self.order@.len() - 1;
        self.promote(t, Ghost(last));
        let old_key = self.cache[t].key;
        let ghost mid = *self;
        proof {
            assert(linked_at(mid.cache@, mid.order@, 0));
        }
        self.map.remove(&old_key);
        self.overwrite_front(key, value);
        self.map.insert(key, t);
        proof {
            let c = self.cache@;
            assert(s.filter(key_is_not(s[last].0)) == s.remove(last)) by {
                old(self).lemma_view();
                lemma_filter_is_remove(s, last);
            }
            assert(s.remove(last) =~= s.drop_last());
            assert forall|q: int|
                0 <= q < self.size implies #[trigger] self.map@.contains_key(c[q].key)
                && self.map@[c[q].key] == q by {
                if q != t {
                    assert(mid.map@.contains_key(mid.cache@[q].key));
                    assert(mid.cache@[q].key != old_key);
                    assert(mid.cache@[q].key != key);
                }
            }
            assert forall|k: K| #[trigger] self.map@.contains_key(k) implies self.map@[k]
                < self.size && c[self.map@[k] as int].key == k by {
                if k != key {
                    assert(mid.map@.contains_key(k));
                    assert(k != old_key);
                    assert(mid.map@[k] != t);
                }
            }
            assert(self@ =~= seq![(key, value)] + s.drop_last());
        }
    }

    /// Unlinks the node at position `order[i]` from the recency list.
    fn detach(&mut self, p: usize, Ghost(i): Ghost<int>)
        requires
            links_ok(old(self).cache@, old(self).head, old(self).tail, old(self).order@),
            0 <= i < old(self).order@.len(),
            old(self).order@[i] == p,
        ensures
            links_ok(final(self).cache@, final(self).head, final(self).tail, final(self).order@),
            final(self).order@ == old(self).order@.remove(i),
            same_payload(final(self).cache@, old(self).cache@),
            final(self).map == old(self).map,
            final(self).size == old(self).size,
            final(self).capacity == old(self).capacity,
    {
        let ghost o = self.order@;
        let ghost c0 = self.cache@;
        proof {
            assert(linked_at(c0, o, i));
            if i > 0 {
                assert(linked_at(c0, o, i - 1));
            }
            if i + 1 < o.len() {
                assert(linked_at(c0, o, i + 1));
            }
        }
        let prev = self.cache[p].prev;
        let next = self.cache[p].next;
        match prev {
            Some(a) => set_next(&mut self.cache, a, next),
            None => self.head = next,
        }
        match next {
            Some(b) => set_prev(&mut self.cache, b, prev),
            None => self.tail = prev,
        }
        self.order = Ghost(o.remove(i));
        proof {
            let o2 = o.remove(i);
            let c = self.cache@;
            assert forall|j: int| 0 <= j < o2.len() implies #[trigger] linked_at(c, o2, j)
            by {
                if j < i {
                    assert(linked_at(c0, o, j));
                    assert(o2[j] == o[j]);
                    assert(o[j] != o[i]);
                    if j + 1 < i {
                        assert(o[j] != o[i - 1]);
                        assert(o2[j + 1] == o[j + 1]);
                    } else {
                        assert(j == i - 1);
                    }
                    if i + 1 < o.len() {
                        assert(o[j] != o[i + 1]);
                    }
                    if j > 0 {
                        assert(o2[j - 1] == o[j - 1]);
                    }
                } else {
                    assert(linked_at(c0, o, j + 1));
                    assert(o2[j] == o[j + 1]);
                    assert(o[j + 1] != o[i]);
                    if j > i {
                        assert(o[j + 1] != o[i + 1]);
                        assert(o2[j - 1] == o[j]);
                    }
                    if i > 0 {
                        assert(o[j + 1] != o[i - 1]);
                    }
                    if j + 1 < o2.len() {
                        assert(o2[j + 1] == o[j + 2]);
                    }
                }
            }
            assert forall|a: int, b: int|
                0 <= a < o2.len() && 0 <= b < o2.len() && a != b implies o2[a] != o2[b] by {
                let a1 = if a < i { a } else { a + 1 };
                let b1 = if b < i { b } else { b + 1 };
                assert(o2[a] == o[a1] && o2[b] == o[b1]);
            }
            assert(o2.len() > 0 ==> o2[0] == (if i == 0 { o[1] } else { o[0] }));
            assert(o2.len() > 0 ==> o2.last() == (if i + 1 == o.len() { o[o.len() - 2] } else { o.last() }));
        }
    }

    /// Links the node at position `p`, which is not in the recency list, in
    /// at its front.
    fn attach_front(&mut self, p: usize)
        requires
            links_ok(old(self).cache@, old(self).head, old(self).tail, old(self).order@),
            p < old(self).cache@.len(),
            !old(self).order@.contains(p),
        ensures
            links_ok(final(self).cache@, final(self).head, final(self).tail, final(self).order@),
            final(self).order@ == seq![p] + old(self).order@,
            same_payload(final(self).cache@, old(self).cache@),
            final(self).map == old(self).map,
            final(self).size == old(self).size,
            final(self).capacity == old(self).capacity,
    {
        let ghost o = self.order@;
        let ghost c0 = self.cache@;
        proof {
            if o.len() > 0 {
                assert(linked_at(c0, o, 0));
            }
        }
        match self.head {
            Some(h) => set_prev(&mut self.cache, h, Some(p)),
            None => self.tail = Some(p),
        }
        let n = self.cache[p];
        self.cache.set(p, Node { prev: None, next: self.head, ..n });
        self.head = Some(p);
        self.order = Ghost(seq![p] + o);
        proof {
            let o2 = seq![p] + o;
            let c = self.cache@;
            assert forall|j: int| 0 <= j < o2.len() implies #[trigger] linked_at(c, o2, j) by {
                if j > 0 {
                    assert(linked_at(c0, o, j - 1));
                    assert(o2[j] == o[j - 1]);
                    assert(o[j - 1] != p);
                    if j > 1 {
                        assert(o[0] != o[j - 1]);
                    }
                }
            }
            assert forall|a: int, b: int|
                0 <= a < o2.len() && 0 <= b < o2.len() && a != b implies o2[a] != o2[b] by {
                if a > 0 {
                    assert(o2[a] == o[a - 1]);
                }
                if b > 0 {
                    assert(o2[b] == o[b - 1]);
                }
            }
        }
    }
}

} // verus!
