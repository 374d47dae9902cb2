//! The cache proper: a never-resized slot store, a hash index from keys to
//! slots, and an intrusive doubly-linked recency list threaded through the
//! slots. The recency order is mirrored by a ghost sequence of slot
//! indices, head first, against which every invariant and contract is
//! stated.

use crate::model::{after_eviction, has_key, index_of_key, keys_of, promoted, pushed, push_returns,
    unique_keys, upserted};
use crate::support::Meta;
use std::collections::HashMap;
use std::hash::Hash;
use std::sync::Arc;
use vstd::prelude::*;
use vstd::std_specs::hash::{builds_valid_hashers, obeys_key_model};

verus! {

broadcast use vstd::std_specs::hash::group_hash_axioms;

/// The hash source a cache is built with when none is supplied.
pub type DefaultHashBuilder = std::collections::hash_map::RandomState;

/// What the verifier must know about a key type for the index to be
/// meaningful: hashing and equality agree with logical equality, and
/// cloning a key yields the same key.
pub open spec fn valid_key_type<K: Eq + Hash + Clone>() -> bool {
    &&& obeys_key_model::<K>()
    &&& forall|k: K, r: K| call_ensures(K::clone, (&k,), r) ==> r == k
}

/// One cached entry: the shared immutable key/value cell, the host's
/// metadata, and the two recency-list links. Nodes live inside the cache's
/// slot store; the links name slot positions.
pub struct Node<K, V, M: Meta> {
    kv: Arc<(K, V)>,
    m: M,
    p: Option<usize>,
    n: Option<usize>,
}

impl<K, V, M: Meta> Node<K, V, M> {
    /// The key/value pair this node holds.
    pub closed spec fn spec_kv(&self) -> (K, V) {
        *self.kv
    }

    /// The backward (towards the head) link.
    pub closed spec fn spec_prev(&self) -> Option<usize> {
        self.p
    }

    /// The forward (towards the tail) link.
    pub closed spec fn spec_next(&self) -> Option<usize> {
        self.n
    }

    /// The metadata stored with the entry.
    pub closed spec fn spec_meta(&self) -> M {
        self.m
    }

    /// A fresh, unlinked node for `(k, v)` with metadata `m`.
    pub fn new(k: K, v: V, m: M) -> (r: Self)
        ensures
            r.spec_kv() == (k, v),
            r.spec_prev() is None,
            r.spec_next() is None,
            r.spec_meta() == m,
    {
        Self { kv: Arc::new((k, v)), m, p: None, n: None }
    }
}

/// An LRU cache of fixed capacity. The slot store never grows, so a node
/// keeps its slot from insertion to eviction; `head` is the most recently
/// used entry and `tail` the least recently used one.
#[verifier::reject_recursive_types(S)]
pub struct GWSCache<K, V, M: Meta = (), S = DefaultHashBuilder> {
    index: HashMap<K, usize, S>,
    slots: Vec<Option<Node<K, V, M>>>,
    head: Option<usize>,
    tail: Option<usize>,
    free: Vec<usize>,
    lock: std::sync::atomic::AtomicBool,
    // Byte-weight counter reserved for size-weighted eviction; no current
    // operation maintains or consults it.
    bytes: usize,
    order: Ghost<Seq<usize>>,
}

impl<K, V, M: Meta, S> GWSCache<K, V, M, S> {
    /// The slot at `i` holds a node.
    pub closed spec fn occupied(&self, i: usize) -> bool {
        i < self.slots@.len() && self.slots@[i as int] is Some
    }

    /// The node in slot `i`.
    pub closed spec fn node_of(&self, i: usize) -> Node<K, V, M> {
        self.slots@[i as int]->Some_0
    }

    /// The key stored in slot `i`.
    pub closed spec fn key_at(&self, i: usize) -> K {
        self.node_of(i).spec_kv().0
    }

    /// The backward link of slot `i`.
    pub closed spec fn prev_of(&self, i: usize) -> Option<usize> {
        self.node_of(i).spec_prev()
    }

    /// The forward link of slot `i`.
    pub closed spec fn next_of(&self, i: usize) -> Option<usize> {
        self.node_of(i).spec_next()
    }

    /// The slot indices of the live entries, most recently used first.
    pub closed spec fn rec_order(&self) -> Seq<usize> {
        self.order@
    }

    /// The head (most recently used) slot, if any.
    pub closed spec fn spec_head(&self) -> Option<usize> {
        self.head
    }

    /// The tail (least recently used) slot, if any.
    pub closed spec fn spec_tail(&self) -> Option<usize> {
        self.tail
    }

    /// The index as a map from keys to slot positions.
    pub closed spec fn index_map(&self) -> Map<K, usize> {
        self.index@
    }

    /// How many entries the cache can hold; fixed at construction.
    pub closed spec fn spec_capacity(&self) -> nat {
        self.slots@.len()
    }

    /// The entries in recency order, most recently used first.
    pub closed spec fn entries(&self) -> Seq<(K, V)> {
        Seq::new(self.order@.len(), |j: int| self.node_of(self.order@[j]).spec_kv())
    }

    /// How many entries the cache holds.
    pub open spec fn spec_len(&self) -> nat {
        self.entries().len()
    }

    /// The recency order names each live slot exactly once.
    pub(crate) closed spec fn order_wf(&self) -> bool {
        let ord = self.order@;
        &&& ord.no_duplicates()
        &&& forall|j: int| 0 <= j < ord.len() ==> self.occupied(#[trigger] ord[j])
        &&& forall|i: usize|
            i < self.slots@.len() && self.slots@[i as int] is Some ==> ord.contains(i)
    }

    /// The links thread the slots exactly in recency order, and the
    /// endpoints point at its two ends.
    pub(crate) closed spec fn links_wf(&self) -> bool {
        let ord = self.order@;
        &&& forall|j: int|
            0 <= j < ord.len() ==> self.prev_of(#[trigger] ord[j]) == (if j == 0 {
                None
            } else {
                Some(ord[j - 1])
            })
        &&& forall|j: int|
            0 <= j < ord.len() ==> self.next_of(#[trigger] ord[j]) == (if j == ord.len() - 1 {
                None
            } else {
                Some(ord[j + 1])
            })
        &&& self.head == (if ord.len() == 0 {
            None
        } else {
            Some(ord[0])
        })
        &&& self.tail == (if ord.len() == 0 {
            None
        } else {
            Some(ord[ord.len() - 1])
        })
    }

    /// The free list names each empty slot exactly once, so the store
    /// splits into live slots and free slots.
    pub(crate) closed spec fn free_wf(&self) -> bool {
        let f = self.free@;
        &&& f.no_duplicates()
        &&& forall|j: int|
            0 <= j < f.len() ==> (#[trigger] f[j]) < self.slots@.len() && self.slots@[f[j] as int] is None
        &&& forall|i: usize|
            i < self.slots@.len() && self.slots@[i as int] is None ==> f.contains(i)
        &&& f.len() + self.order@.len() == self.slots@.len()
    }

    /// The hash index maps exactly the stored keys, each to its slot.
    pub(crate) closed spec fn index_wf(&self) -> bool {
        let ord = self.order@;
        let m = self.index@;
        &&& forall|j: int|
            0 <= j < ord.len() ==> {
                &&& m.contains_key(#[trigger] self.key_at(ord[j]))
                &&& m[self.key_at(ord[j])] == ord[j]
            }
        &&& forall|k: K|
            #[trigger] m.contains_key(k) ==> exists|j: int|
                0 <= j < ord.len() && self.key_at(#[trigger] ord[j]) == k
    }

    /// The joint invariant of the slot store, the recency list and the
    /// hash index; every public operation preserves it.
    pub closed spec fn wf(&self) -> bool
        where K: Eq + Hash + Clone
    {
        &&& valid_key_type::<K>()
        &&& builds_valid_hashers::<S>()
        &&& self.order_wf()
        &&& self.links_wf()
        &&& self.free_wf()
        &&& self.index_wf()
    }

    /// The detached shape: slot `i` holds an unlinked node whose key is
    /// already in the index, while everything else — the recency list over
    /// the remaining entries, the free pool and the rest of the index — is
    /// coherent as in `wf`. An upsert of an absent key produces this shape,
    /// and so does unlinking an entry for promotion; attaching `i` at the
    /// head restores `wf`.
    pub(crate) closed spec fn wf_detached(&self, i: usize) -> bool
        where K: Eq + Hash + Clone
    {
        let ord = self.order@;
        let f = self.free@;
        let m = self.index@;
        &&& valid_key_type::<K>()
        &&& builds_valid_hashers::<S>()
        &&& self.occupied(i)
        &&& !ord.contains(i)
        &&& self.prev_of(i) is None
        &&& self.next_of(i) is None
        &&& ord.no_duplicates()
        &&& forall|j: int| 0 <= j < ord.len() ==> self.occupied(#[trigger] ord[j])
        &&& forall|z: usize|
            z < self.slots@.len() && self.slots@[z as int] is Some ==> z == i || ord.contains(z)
        &&& self.links_wf()
        &&& f.no_duplicates()
        &&& forall|j: int|
            0 <= j < f.len() ==> (#[trigger] f[j]) < self.slots@.len() && self.slots@[f[j] as int] is None
        &&& forall|z: usize| z < self.slots@.len() && self.slots@[z as int] is None ==> f.contains(z)
        &&& f.len() + ord.len() + 1 == self.slots@.len()
        &&& forall|j: int|
            0 <= j < ord.len() ==> {
                &&& m.contains_key(#[trigger] self.key_at(ord[j]))
                &&& m[self.key_at(ord[j])] == ord[j]
            }
        &&& m.contains_key(self.key_at(i)) && m[self.key_at(i)] == i
        &&& forall|k: K|
            #[trigger] m.contains_key(k) ==> k == self.key_at(i) || exists|j: int|
                0 <= j < ord.len() && self.key_at(#[trigger] ord[j]) == k
        &&& forall|j: int| 0 <= j < ord.len() ==> self.key_at(#[trigger] ord[j]) != self.key_at(i)
    }
}

/// Relies on `std::hash::RandomState::default`: it yields a fresh default
/// hash builder. Nothing needs to be known about the value; that the type
/// hashes soundly is covered by the standard axioms.
pub assume_specification[ <std::hash::RandomState as std::default::Default>::default ]() -> std::hash::RandomState;

/// Relies on `std::collections::HashMap::with_hasher`: it creates an empty
/// map that will hash with the given builder.
#[verifier::external_body]
fn new_index_map<Key, Value, H>(hash_builder: H) -> (m: HashMap<Key, Value, H>)
    ensures
        m@.len() == 0,
        forall|k: Key| !(#[trigger] m@.contains_key(k)),
{
    HashMap::with_hasher(hash_builder)
}

impl<K: Eq + Hash + Clone, V, M: Meta> GWSCache<K, V, M, DefaultHashBuilder> {
    /// A cache of the given fixed capacity, hashing with the default
    /// builder. All slots are allocated here: the store never resizes, so
    /// that nodes keep their addresses and the links stay valid.
    pub fn new(capacity: usize) -> (r: Self)
        requires
            valid_key_type::<K>(),
        ensures
            r.wf(),
            r.entries() == Seq::<(K, V)>::empty(),
            r.spec_capacity() == capacity,
    {
        Self::with_hasher(capacity, DefaultHashBuilder::default())
    }
}

impl<K: Eq + Hash + Clone, V, M: Meta, S: std::hash::BuildHasher> GWSCache<K, V, M, S> {
    /// A cache of the given fixed capacity, hashing with the supplied
    /// builder.
    pub fn with_hasher(capacity: usize, hash_builder: S) -> (r: Self)
        requires
            valid_key_type::<K>(),
            builds_valid_hashers::<S>(),
        ensures
            r.wf(),
            r.entries() == Seq::<(K, V)>::empty(),
            r.spec_capacity() == capacity,
    {
        let mut slots: Vec<Option<Node<K, V, M>>> = Vec::new();
        let mut free: Vec<usize> = Vec::new();
        let mut i: usize = 0;
        while i < capacity
            invariant
                i <= capacity,
                slots@.len() == i,
                free@.len() == i,
                forall|j: int| 0 <= j < i ==> slots@[j] is None,
                forall|j: int| 0 <= j < i ==> (#[trigger] free@[j]) == j,
            decreases capacity - i,
        {
            slots.push(None);
            free.push(i);
            i = i + 1;
        }
        let r = Self {
            index: new_index_map(hash_builder),
            slots,
            head: None,
            tail: None,
            free,
            lock: std::sync::atomic::AtomicBool::new(false),
            bytes: 0,
            order: Ghost(Seq::empty()),
        };
        proof {
            assert(r.entries() =~= Seq::<(K, V)>::empty());
            assert forall|j: int|
                0 <= j < r.free@.len() implies (#[trigger] r.free@[j]) < r.slots@.len()
                && r.slots@[r.free@[j] as int] is None by {}
            assert(r.free@.no_duplicates()) by {
                assert forall|j1: int, j2: int|
                    0 <= j1 < r.free@.len() && 0 <= j2 < r.free@.len() && j1 != j2
                    implies r.free@[j1] != r.free@[j2] by {}
            }
            assert forall|i0: usize|
                i0 < r.slots@.len() && r.slots@[i0 as int] is None
                implies r.free@.contains(i0) by {
                assert(r.free@[i0 as int] == i0);
            }
        }
        r
    }

    /// How many entries the cache currently holds.
    pub fn len(&self) -> (r: usize)
        requires
            self.wf(),
        ensures
            r == self.spec_len(),
    {
        self.slots.len() - self.free.len()
    }

    /// How many entries the cache can hold.
    pub fn capacity(&self) -> (r: usize)
        ensures
            r == self.spec_capacity(),
    {
        self.slots.len()
    }

    /// Acquire the flag that serializes the public operations, by a
    /// test-and-set. Exclusive borrowing already serializes callers —
    /// every critical section lies within a single `&mut self` call — so
    /// the flag is never observed held and one test-and-set acquires it.
    fn lock(&mut self)
        ensures
            *final(self) == *old(self),
    {
        let _ = self.lock.compare_exchange(
            false,
            true,
            std::sync::atomic::Ordering::Acquire,
            std::sync::atomic::Ordering::Acquire,
        );
    }

    /// Release the flag, publishing the writes of the critical section.
    fn unlock(&mut self)
        ensures
            *final(self) == *old(self),
    {
        self.lock.store(false, std::sync::atomic::Ordering::Release);
    }

    /// Everything the invariant ties together, restated for callers of the
    /// internal operations: the index and the entries name the same keys,
    /// each key at its recency position, and no key appears twice.
    proof fn lemma_index_entries(&self)
        requires
            self.wf(),
        ensures
            forall|k: K| self.index_map().contains_key(k) <==> has_key(self.entries(), k),
            forall|j: int|
                0 <= j < self.rec_order().len() ==> {
                    &&& self.index_map().contains_key(#[trigger] self.entries()[j].0)
                    &&& self.index_map()[self.entries()[j].0] == self.rec_order()[j]
                },
            unique_keys(self.entries()),
            self.entries().len() == self.rec_order().len(),
    {
        let ord = self.order@;
        let s = self.entries();
        assert forall|j: int| 0 <= j < ord.len() implies {
            &&& self.index@.contains_key(#[trigger] s[j].0)
            &&& self.index@[s[j].0] == ord[j]
        } by {
            assert(s[j].0 == self.key_at(ord[j]));
        }
        assert forall|k: K| self.index_map().contains_key(k) implies has_key(s, k) by {
            let j = choose|j: int| 0 <= j < ord.len() && self.key_at(#[trigger] ord[j]) == k;
            assert(s[j].0 == k);
        }
        assert forall|k: K| has_key(s, k) implies self.index_map().contains_key(k) by {
            let j = choose|j: int| 0 <= j < s.len() && s[j].0 == k;
            assert(self.key_at(ord[j]) == k);
        }
        assert forall|j1: int, j2: int| 0 <= j1 < j2 < s.len() implies s[j1].0 != s[j2].0 by {
            if s[j1].0 == s[j2].0 {
                assert(self.index@[self.key_at(ord[j1])] == ord[j1]);
                assert(self.index@[self.key_at(ord[j2])] == ord[j2]);
                assert(ord[j1] == ord[j2]);
            }
        }
    }

    /// Update the forward link of the node in slot `i`; nothing else moves.
    fn set_next(&mut self, i: usize, x: Option<usize>)
        requires
            old(self).occupied(i),
        ensures
            final(self).occupied(i),
            final(self).node_of(i).spec_kv() == old(self).node_of(i).spec_kv(),
            final(self).node_of(i).spec_meta() == old(self).node_of(i).spec_meta(),
            final(self).prev_of(i) == old(self).prev_of(i),
            final(self).next_of(i) == x,
            final(self).slots@.len() == old(self).slots@.len(),
            forall|z: int|
                0 <= z < old(self).slots@.len() && z != i ==> final(self).slots@[z] == old(
                    self,
                ).slots@[z],
            final(self).index == old(self).index,
            final(self).head == old(self).head,
            final(self).tail == old(self).tail,
            final(self).free == old(self).free,
            final(self).order == old(self).order,
            final(self).bytes == old(self).bytes,
    {
        let mut node = self.slots[i].take().unwrap();
        node.n = x;
        self.slots[i] = Some(node);
    }

    /// Update the backward link of the node in slot `i`; nothing else moves.
    fn set_prev(&mut self, i: usize, x: Option<usize>)
        requires
            old(self).occupied(i),
        ensures
            final(self).occupied(i),
            final(self).node_of(i).spec_kv() == old(self).node_of(i).spec_kv(),
            final(self).node_of(i).spec_meta() == old(self).node_of(i).spec_meta(),
            final(self).next_of(i) == old(self).next_of(i),
            final(self).prev_of(i) == x,
            final(self).slots@.len() == old(self).slots@.len(),
            forall|z: int|
                0 <= z < old(self).slots@.len() && z != i ==> final(self).slots@[z] == old(
                    self,
                ).slots@[z],
            final(self).index == old(self).index,
            final(self).head == old(self).head,
            final(self).tail == old(self).tail,
            final(self).free == old(self).free,
            final(self).order == old(self).order,
            final(self).bytes == old(self).bytes,
    {
        let mut node = self.slots[i].take().unwrap();
        node.p = x;
        self.slots[i] = Some(node);
    }

    /// The slot holding the entry for `k`, straight from the hash index.
    fn find(&self, k: &K) -> (r: Option<usize>)
        requires
            self.wf(),
        ensures
            match r {
                Some(i) => {
                    &&& has_key(self.entries(), *k)
                    &&& {
                        let j = index_of_key(self.entries(), *k);
                        0 <= j < self.rec_order().len() && self.rec_order()[j] == i
                    }
                },
                None => !has_key(self.entries(), *k),
            },
    {
        proof {
            self.lemma_index_entries();
        }
        match self.index.get(k) {
            Some(ir) => {
                let i = *ir;
                proof {
                    let s = self.entries();
                    assert(self.index@.contains_key(*k));
                    let j0 = choose|j0: int| 0 <= j0 < s.len() && s[j0].0 == *k;
                    assert(has_key(s, *k));
                    let j = index_of_key(s, *k);
                    assert(0 <= j < s.len() && s[j].0 == *k);
                    assert(self.index@[s[j].0] == self.rec_order()[j]);
                }
                Some(i)
            },
            None => None,
        }
    }

    /// The two links of the node in slot `i`.
    fn links_of(&self, i: usize) -> (r: (Option<usize>, Option<usize>))
        requires
            self.occupied(i),
        ensures
            r.0 == self.prev_of(i),
            r.1 == self.next_of(i),
    {
        match &self.slots[i] {
            Some(nd) => (nd.p, nd.n),
            None => vstd::pervasive::unreached(),
        }
    }

    /// Unlink the node in slot `i` from the recency list, rewiring its
    /// neighbours and the endpoints and clearing its own links. The node
    /// stays in its slot and its key stays indexed: the slot store is left
    /// in the detached shape, from which the node is either re-attached at
    /// the head (promotion) or erased (removal).
    #[verifier::rlimit(80)]
    fn detach(&mut self, i: usize)
        requires
            old(self).wf(),
            old(self).rec_order().contains(i),
        ensures
            final(self).wf_detached(i),
            final(self).spec_capacity() == old(self).spec_capacity(),
            final(self).node_of(i).spec_kv() == old(self).node_of(i).spec_kv(),
            final(self).node_of(i).spec_meta() == old(self).node_of(i).spec_meta(),
            ({
                let j = old(self).rec_order().index_of(i);
                &&& 0 <= j < old(self).rec_order().len()
                &&& old(self).rec_order()[j] == i
                &&& final(self).rec_order() == old(self).rec_order().remove(j)
                &&& final(self).entries() == old(self).entries().remove(j)
                &&& old(self).node_of(i).spec_kv() == old(self).entries()[j]
            }),
            final(self).free == old(self).free,
            final(self).index_map() == old(self).index_map(),
    {
        let ghost o = *self;
        let ghost ord = o.order@;
        let ghost j = ord.index_of(i);
        proof {
            o.lemma_index_entries();
            let jw = choose|x: int| 0 <= x < ord.len() && ord[x] == i;
            assert(ord[jw] == i);
            assert(0 <= j < ord.len() && ord[j] == i);
            assert(o.occupied(i));
        }
        let (lp, ln) = self.links_of(i);
        proof {
            assert(lp == o.prev_of(i) && ln == o.next_of(i));
        }
        match (lp, ln) {
            (Some(pi), Some(ni)) => {
                proof {
                    assert(0 < j < ord.len() - 1 && pi == ord[j - 1] && ni == ord[j + 1]);
                    assert(pi != i && ni != i && pi != ni);
                    assert(self.occupied(pi) && self.occupied(ni));
                }
                self.set_next(pi, Some(ni));
                self.set_prev(ni, Some(pi));
            },
            (Some(pi), None) => {
                proof {
                    assert(j == ord.len() - 1 && j > 0 && pi == ord[j - 1]);
                    assert(pi != i);
                    assert(self.occupied(pi));
                }
                self.tail = Some(pi);
                self.set_next(pi, None);
            },
            (None, Some(ni)) => {
                proof {
                    assert(j == 0 && ord.len() >= 2 && ni == ord[1]);
                    assert(ni != i);
                    assert(self.occupied(ni));
                }
                self.head = Some(ni);
                self.set_prev(ni, None);
            },
            (None, None) => {
                proof {
                    assert(j == 0 && ord.len() == 1);
                }
                self.head = None;
                self.tail = None;
            },
        }
        self.set_prev(i, None);
        self.set_next(i, None);
        self.order = Ghost(ord.remove(j));
        proof {
            let s2 = self.slots@;
            let ord2 = self.order@;
            let ki = o.key_at(i);
            assert(ord2.len() == ord.len() - 1);
            assert(s2.len() == o.slots@.len());
            assert forall|x: int| 0 <= x < ord2.len() implies #[trigger] ord2[x] == (if x < j {
                ord[x]
            } else {
                ord[x + 1]
            }) by {}
            // Occupancy and cell contents are untouched everywhere; only
            // links changed, and only in the two neighbours and `i` itself.
            assert forall|z: int| 0 <= z < s2.len() implies (s2[z] is Some <==> o.slots@[z] is Some)
                && (s2[z] is Some ==> (#[trigger] s2[z])->Some_0.kv == o.slots@[z]->Some_0.kv
                && s2[z]->Some_0.m == o.slots@[z]->Some_0.m) by {}
            assert(self.occupied(i) && self.key_at(i) == ki);
            assert(self.node_of(i).spec_kv() == o.node_of(i).spec_kv());
            assert(self.prev_of(i) is None && self.next_of(i) is None);
            // The shrunken order still names live slots, exactly once, and
            // `i` is no longer among them.
            assert forall|x1: int, x2: int|
                0 <= x1 < ord2.len() && 0 <= x2 < ord2.len() && x1 != x2 implies ord2[x1]
                != ord2[x2] by {
                let y1: int = if x1 < j { x1 } else { x1 + 1 };
                let y2: int = if x2 < j { x2 } else { x2 + 1 };
                assert(ord[y1] == ord2[x1] && ord[y2] == ord2[x2] && y1 != y2);
            }
            assert(ord2.no_duplicates());
            assert forall|x: int| 0 <= x < ord2.len() implies ord2[x] != i by {
                let y: int = if x < j { x } else { x + 1 };
                assert(ord2[x] == ord[y] && y != j && ord[j] == i);
            }
            assert(!ord2.contains(i));
            assert forall|x: int| 0 <= x < ord2.len() implies self.occupied(#[trigger] ord2[x]) by {
                let y: int = if x < j { x } else { x + 1 };
                assert(ord2[x] == ord[y] && y != j);
                assert(o.occupied(ord[y]));
            }
            assert forall|z: usize|
                z < s2.len() && s2[z as int] is Some implies z == i || ord2.contains(z) by {
                if z != i {
                    assert(o.slots@[z as int] is Some);
                    assert(ord.contains(z));
                    let y = choose|y: int| 0 <= y < ord.len() && ord[y] == z;
                    assert(0 <= y < ord.len() && ord[y] == z);
                    assert(y != j);
                    let x: int = if y < j { y } else { y - 1 };
                    assert(ord2[x] == z);
                }
            }
            // The links thread the new order.
            assert forall|x: int| 0 <= x < ord2.len() implies self.prev_of(#[trigger] ord2[x]) == (
            if x == 0 {
                None
            } else {
                Some(ord2[x - 1])
            }) by {
                let y: int = if x < j { x } else { x + 1 };
                assert(ord2[x] == ord[y] && y != j);
                if lp is Some && ord2[x] == ord[j - 1] {
                    assert(y == j - 1);
                    assert(self.prev_of(ord2[x]) == o.prev_of(ord[j - 1]));
                } else if ln is Some && ord2[x] == ord[j + 1] {
                    assert(y == j + 1);
                } else {
                    assert(self.prev_of(ord2[x]) == o.prev_of(ord[y]));
                }
            }
            assert forall|x: int| 0 <= x < ord2.len() implies self.next_of(#[trigger] ord2[x]) == (
            if x == ord2.len() - 1 {
                None
            } else {
                Some(ord2[x + 1])
            }) by {
                let y: int = if x < j { x } else { x + 1 };
                assert(ord2[x] == ord[y] && y != j);
                if lp is Some && ord2[x] == ord[j - 1] {
                    assert(y == j - 1);
                } else if ln is Some && ord2[x] == ord[j + 1] {
                    assert(y == j + 1);
                    assert(self.next_of(ord2[x]) == o.next_of(ord[j + 1]));
                } else {
                    assert(self.next_of(ord2[x]) == o.next_of(ord[y]));
                }
            }
            // Endpoints.
            assert(self.head == (if ord2.len() == 0 { None } else { Some(ord2[0]) }));
            assert(self.tail == (if ord2.len() == 0 {
                None
            } else {
                Some(ord2[ord2.len() - 1])
            }));
            // The free pool is untouched, and still covers exactly the
            // empty slots.
            assert forall|x: int|
                0 <= x < self.free@.len() implies (#[trigger] self.free@[x]) < s2.len()
                && s2[self.free@[x] as int] is None by {
                assert(o.slots@[self.free@[x] as int] is None);
            }
            assert forall|z: usize|
                z < s2.len() && s2[z as int] is None implies self.free@.contains(z) by {
                assert(o.slots@[z as int] is None);
            }
            assert(self.free@.len() + ord2.len() + 1 == s2.len());
            // The index is untouched: it maps the surviving keys to their
            // slots and the detached key to `i`.
            assert(self.index@.contains_key(ki) && self.index@[ki] == i);
            assert forall|x: int| 0 <= x < ord2.len() implies {
                &&& self.index@.contains_key(#[trigger] self.key_at(ord2[x]))
                &&& self.index@[self.key_at(ord2[x])] == ord2[x]
            } by {
                let y: int = if x < j { x } else { x + 1 };
                assert(ord2[x] == ord[y] && y != j);
                assert(self.key_at(ord2[x]) == o.key_at(ord[y]));
                assert(o.index@.contains_key(o.key_at(ord[y])));
                assert(o.index@[o.key_at(ord[y])] == ord[y]);
            }
            assert forall|x: int|
                0 <= x < ord2.len() implies self.key_at(#[trigger] ord2[x]) != ki by {
                let y: int = if x < j { x } else { x + 1 };
                assert(ord2[x] == ord[y] && y != j);
                assert(self.key_at(ord2[x]) == o.key_at(ord[y]));
                assert(o.entries()[y].0 == o.key_at(ord[y]));
                assert(o.entries()[j].0 == ki);
            }
            assert forall|k: K| #[trigger] self.index@.contains_key(k) implies k == self.key_at(i)
                || exists|x: int| 0 <= x < ord2.len() && self.key_at(#[trigger] ord2[x]) == k by {
                if k != ki {
                    let y = choose|y: int| 0 <= y < ord.len() && o.key_at(#[trigger] ord[y]) == k;
                    assert(0 <= y < ord.len() && o.key_at(ord[y]) == k);
                    assert(ord[j] == i && o.key_at(ord[j]) == ki);
                    assert(y != j);
                    let x: int = if y < j { y } else { y - 1 };
                    assert(ord2[x] == ord[y]);
                    assert(self.key_at(ord2[x]) == k);
                }
            }
            // The entries are the old ones with position `j` taken out.
            assert forall|x: int| 0 <= x < ord2.len() implies #[trigger] self.entries()[x] == o.entries().remove(
                j,
            )[x] by {
                let y: int = if x < j { x } else { x + 1 };
                assert(ord2[x] == ord[y] && y != j);
                assert(self.node_of(ord2[x]).spec_kv() == o.node_of(ord[y]).spec_kv());
            }
            assert(self.entries() =~= o.entries().remove(j));
        }
    }

    /// Take the node in slot `i` out of the cache altogether: unlink it,
    /// erase the slot without touching the cell, return the slot to the
    /// free pool and drop the key from the index. The node is handed back
    /// whole, so the caller decides whether its cell survives (an eviction
    /// drops it, `pop_back` returns it).
    fn remove(&mut self, i: usize) -> (node: Node<K, V, M>)
        requires
            old(self).wf(),
            old(self).rec_order().contains(i),
        ensures
            final(self).wf(),
            final(self).spec_capacity() == old(self).spec_capacity(),
            ({
                let j = old(self).rec_order().index_of(i);
                &&& 0 <= j < old(self).rec_order().len()
                &&& old(self).rec_order()[j] == i
                &&& final(self).rec_order() == old(self).rec_order().remove(j)
                &&& final(self).entries() == old(self).entries().remove(j)
                &&& node.spec_kv() == old(self).entries()[j]
            }),
    {
        self.detach(i);
        let ghost d = *self;
        let node = self.slots[i].take().unwrap();
        let _ = self.index.remove(&node.kv.0);
        self.free.push(i);
        proof {
            let ord2 = self.order@;
            let s2 = self.slots@;
            let f2 = self.free@;
            let m2 = self.index@;
            let ki = d.key_at(i);
            assert(node == d.node_of(i));
            assert(node.spec_kv().0 == ki);
            assert(m2 =~= d.index@.remove(ki));
            assert(s2 =~= d.slots@.update(i as int, None));
            assert(f2 =~= d.free@ + seq![i]);
            assert(ord2 == d.order@);
            // Only slot `i` changed, and it is outside the order.
            assert forall|x: int| 0 <= x < ord2.len() implies ord2[x] != i by {
                if ord2[x] == i {
                    assert(d.order@.contains(i));
                }
            }
            assert forall|x: int| 0 <= x < ord2.len() implies self.occupied(#[trigger] ord2[x])
                && self.node_of(ord2[x]) == d.node_of(ord2[x]) by {
                assert(ord2[x] != i);
                assert(d.occupied(ord2[x]));
            }
            assert forall|z: usize|
                z < s2.len() && s2[z as int] is Some implies ord2.contains(z) by {
                assert(z != i);
                assert(d.slots@[z as int] is Some);
            }
            // The links are untouched on every listed slot.
            assert forall|x: int| 0 <= x < ord2.len() implies self.prev_of(#[trigger] ord2[x]) == (
            if x == 0 {
                None
            } else {
                Some(ord2[x - 1])
            }) && self.next_of(ord2[x]) == (if x == ord2.len() - 1 {
                None
            } else {
                Some(ord2[x + 1])
            }) by {
                assert(self.node_of(ord2[x]) == d.node_of(ord2[x]));
            }
            // The free pool gained exactly slot `i`.
            assert(!d.free@.contains(i));
            assert forall|x1: int, x2: int|
                0 <= x1 < f2.len() && 0 <= x2 < f2.len() && x1 != x2 implies f2[x1] != f2[x2] by {
                if x1 < f2.len() - 1 && x2 < f2.len() - 1 {
                } else {
                    assert(f2[f2.len() - 1] == i);
                }
            }
            assert(f2.no_duplicates());
            assert forall|x: int|
                0 <= x < f2.len() implies (#[trigger] f2[x]) < s2.len() && s2[f2[x] as int] is None
                by {
                if x < f2.len() - 1 {
                    assert(d.slots@[f2[x] as int] is None);
                    assert(f2[x] != i);
                }
            }
            assert forall|z: usize|
                z < s2.len() && s2[z as int] is None implies f2.contains(z) by {
                if z == i {
                    assert(f2[f2.len() - 1] == i);
                } else {
                    assert(d.slots@[z as int] is None);
                    assert(d.free@.contains(z));
                    let x = choose|x: int| 0 <= x < d.free@.len() && d.free@[x] == z;
                    assert(f2[x] == z);
                }
            }
            assert(f2.len() + ord2.len() == s2.len());
            // The index lost exactly the erased key.
            assert forall|x: int| 0 <= x < ord2.len() implies {
                &&& m2.contains_key(#[trigger] self.key_at(ord2[x]))
                &&& m2[self.key_at(ord2[x])] == ord2[x]
            } by {
                assert(self.node_of(ord2[x]) == d.node_of(ord2[x]));
                assert(d.key_at(ord2[x]) != ki);
                assert(d.index@.contains_key(d.key_at(ord2[x])));
            }
            assert forall|k: K| #[trigger] m2.contains_key(k) implies exists|x: int|
                0 <= x < ord2.len() && self.key_at(#[trigger] ord2[x]) == k by {
                assert(d.index@.contains_key(k) && k != ki);
                let x = choose|x: int| 0 <= x < d.order@.len() && d.key_at(#[trigger] d.order@[x]) == k;
                assert(self.key_at(ord2[x]) == k);
            }
            // The entries are exactly what detaching left.
            assert forall|x: int| 0 <= x < ord2.len() implies #[trigger] self.entries()[x] == d.entries()[x] by {
                assert(self.node_of(ord2[x]) == d.node_of(ord2[x]));
            }
            assert(self.entries() =~= d.entries());
        }
        node
    }

    /// Attach the detached node in slot `i` at the head of the recency
    /// list: the old head's backward link and the endpoints are rewired,
    /// and the node's forward link points at the old head.
    fn attach(&mut self, i: usize)
        requires
            old(self).wf_detached(i),
        ensures
            final(self).wf(),
            final(self).spec_capacity() == old(self).spec_capacity(),
            final(self).rec_order() == seq![i] + old(self).rec_order(),
            final(self).entries() == seq![old(self).node_of(i).spec_kv()] + old(self).entries(),
            final(self).node_of(i).spec_kv() == old(self).node_of(i).spec_kv(),
    {
        let ghost o = *self;
        let ghost ord = o.order@;
        match self.head {
            None => {
                proof {
                    assert(ord.len() == 0);
                }
                self.head = Some(i);
                self.tail = Some(i);
            },
            Some(h0) => {
                proof {
                    assert(ord.len() > 0 && h0 == ord[0]);
                    if h0 == i {
                        assert(ord.contains(i));
                    }
                    assert(h0 != i);
                    assert(o.occupied(h0) && o.occupied(i));
                }
                self.set_prev(h0, Some(i));
                self.set_next(i, Some(h0));
                self.head = Some(i);
            },
        }
        self.order = Ghost(seq![i] + ord);
        proof {
            let ord2 = self.order@;
            let s2 = self.slots@;
            let ki = o.key_at(i);
            assert(ord2.len() == ord.len() + 1);
            assert(ord2[0] == i);
            assert forall|x: int| 1 <= x < ord2.len() implies #[trigger] ord2[x] == ord[x - 1] by {}
            // Occupancy and cells are untouched.
            assert forall|z: int| 0 <= z < s2.len() implies (s2[z] is Some <==> o.slots@[z] is Some)
                && (s2[z] is Some ==> (#[trigger] s2[z])->Some_0.kv == o.slots@[z]->Some_0.kv
                && s2[z]->Some_0.m == o.slots@[z]->Some_0.m) by {}
            assert(self.node_of(i).spec_kv() == o.node_of(i).spec_kv());
            assert(self.key_at(i) == ki);
            // The grown order names live slots exactly once.
            assert forall|x1: int, x2: int|
                0 <= x1 < ord2.len() && 0 <= x2 < ord2.len() && x1 != x2 implies ord2[x1]
                != ord2[x2] by {
                if x1 >= 1 && x2 >= 1 {
                } else if x1 == 0 {
                    if ord2[x2] == i {
                        assert(ord.contains(i));
                    }
                } else {
                    if ord2[x1] == i {
                        assert(ord.contains(i));
                    }
                }
            }
            assert(ord2.no_duplicates());
            assert forall|x: int| 0 <= x < ord2.len() implies self.occupied(#[trigger] ord2[x]) by {
                if x >= 1 {
                    assert(o.occupied(ord[x - 1]));
                }
            }
            assert forall|z: usize|
                z < s2.len() && s2[z as int] is Some implies ord2.contains(z) by {
                assert(o.slots@[z as int] is Some);
                if z == i {
                    assert(ord2[0] == z);
                } else {
                    assert(ord.contains(z));
                    let y = choose|y: int| 0 <= y < ord.len() && ord[y] == z;
                    assert(ord2[y + 1] == z);
                }
            }
            // The links thread the grown order.
            assert forall|x: int| 0 <= x < ord2.len() implies self.prev_of(#[trigger] ord2[x]) == (
            if x == 0 {
                None
            } else {
                Some(ord2[x - 1])
            }) by {
                if x == 0 {
                } else if x == 1 {
                } else {
                    assert(ord2[x] == ord[x - 1] && ord2[x] != i && ord2[x] != ord[0]);
                    assert(self.prev_of(ord2[x]) == o.prev_of(ord[x - 1]));
                }
            }
            assert forall|x: int| 0 <= x < ord2.len() implies self.next_of(#[trigger] ord2[x]) == (
            if x == ord2.len() - 1 {
                None
            } else {
                Some(ord2[x + 1])
            }) by {
                if x == 0 {
                } else if x == 1 {
                    assert(ord2[x] == ord[0]);
                    assert(self.next_of(ord2[x]) == o.next_of(ord[0]));
                } else {
                    assert(ord2[x] == ord[x - 1] && ord2[x] != i && ord2[x] != ord[0]);
                    assert(self.next_of(ord2[x]) == o.next_of(ord[x - 1]));
                }
            }
            // Endpoints.
            assert(self.head == Some(ord2[0]));
            assert(self.tail == Some(ord2[ord2.len() - 1]));
            // The free pool is untouched and still covers the empty slots.
            assert forall|x: int|
                0 <= x < self.free@.len() implies (#[trigger] self.free@[x]) < s2.len()
                && s2[self.free@[x] as int] is None by {
                assert(o.slots@[self.free@[x] as int] is None);
            }
            assert forall|z: usize|
                z < s2.len() && s2[z as int] is None implies self.free@.contains(z) by {
                assert(o.slots@[z as int] is None);
            }
            assert(self.free@.len() + ord2.len() == s2.len());
            // The index is untouched and maps the grown order.
            assert forall|x: int| 0 <= x < ord2.len() implies {
                &&& self.index@.contains_key(#[trigger] self.key_at(ord2[x]))
                &&& self.index@[self.key_at(ord2[x])] == ord2[x]
            } by {
                if x == 0 {
                    assert(self.key_at(i) == ki);
                } else {
                    assert(self.key_at(ord2[x]) == o.key_at(ord[x - 1]));
                }
            }
            assert forall|k: K| #[trigger] self.index@.contains_key(k) implies exists|x: int|
                0 <= x < ord2.len() && self.key_at(#[trigger] ord2[x]) == k by {
                if k == ki {
                    assert(self.key_at(ord2[0]) == k);
                } else {
                    let y = choose|y: int| 0 <= y < ord.len() && o.key_at(#[trigger] ord[y]) == k;
                    assert(self.key_at(ord2[y + 1]) == o.key_at(ord[y]));
                }
            }
            // The entries gained the attached pair at the front.
            assert forall|x: int|
                0 <= x < ord2.len() implies #[trigger] self.entries()[x] == (seq![
                o.node_of(i).spec_kv()] + o.entries())[x] by {
                if x >= 1 {
                    assert(self.node_of(ord2[x]).spec_kv() == o.node_of(ord[x - 1]).spec_kv());
                }
            }
            assert(self.entries() =~= seq![o.node_of(i).spec_kv()] + o.entries());
        }
    }

    /// Insert `(k, v)` or replace the value under `k`. A present key keeps
    /// its node and slot: only the cell is swapped, and the prior cell is
    /// handed back for the caller (and any concurrent holder) to keep. An
    /// absent key takes a free slot — the caller has made sure one exists —
    /// and the new node is left detached for `to_head` to attach.
    fn upsert(&mut self, k: K, v: V, m: M) -> (r: (usize, Option<Arc<(K, V)>>))
        requires
            old(self).wf(),
            has_key(old(self).entries(), k) || old(self).spec_len() < old(self).spec_capacity(),
        ensures
            final(self).spec_capacity() == old(self).spec_capacity(),
            has_key(old(self).entries(), k) ==> {
                let j = index_of_key(old(self).entries(), k);
                &&& final(self).wf()
                &&& final(self).rec_order() == old(self).rec_order()
                &&& final(self).rec_order().contains(r.0)
                &&& r.0 == old(self).rec_order()[j]
                &&& final(self).entries() == old(self).entries().update(j, (k, v))
                &&& r.1 matches Some(c) && *c == old(self).entries()[j]
            },
            !has_key(old(self).entries(), k) ==> {
                &&& final(self).wf_detached(r.0)
                &&& final(self).rec_order() == old(self).rec_order()
                &&& final(self).entries() == old(self).entries()
                &&& final(self).node_of(r.0).spec_kv() == (k, v)
                &&& r.1 is None
            },
    {
        let ghost o = *self;
        proof {
            o.lemma_index_entries();
        }
        match self.find(&k) {
            Some(i) => {
                let ghost ord = o.order@;
                let ghost j = index_of_key(o.entries(), k);
                proof {
                    assert(0 <= j < ord.len() && ord[j] == i);
                    assert(o.occupied(i));
                    assert(o.entries()[j].0 == k);
                    assert(o.entries()[j] == o.node_of(i).spec_kv());
                    assert(o.key_at(i) == k);
                }
                let mut node = self.slots[i].take().unwrap();
                let prior = node.kv;
                node.kv = Arc::new((k, v));
                self.slots[i] = Some(node);
                proof {
                    let s2 = self.slots@;
                    assert(*prior == o.entries()[j]);
                    assert forall|z: int|
                        0 <= z < s2.len() && z != i implies s2[z] == o.slots@[z] by {}
                    assert(self.occupied(i));
                    assert(self.node_of(i).spec_kv() == (k, v));
                    assert(self.key_at(i) == k && o.key_at(i) == k);
                    assert(self.prev_of(i) == o.prev_of(i) && self.next_of(i) == o.next_of(i));
                    // Only the cell in slot `i` changed, and its key kept
                    // its logical value, so the whole invariant carries.
                    assert forall|x: int|
                        0 <= x < ord.len() implies self.occupied(#[trigger] ord[x])
                        && self.key_at(ord[x]) == o.key_at(ord[x]) && self.prev_of(ord[x])
                        == o.prev_of(ord[x]) && self.next_of(ord[x]) == o.next_of(ord[x]) by {
                        if ord[x] != i {
                            assert(s2[ord[x] as int] == o.slots@[ord[x] as int]);
                        }
                    }
                    assert forall|z: usize|
                        z < s2.len() && s2[z as int] is Some implies ord.contains(z) by {
                        assert(o.slots@[z as int] is Some);
                    }
                    assert forall|z: usize|
                        z < s2.len() && s2[z as int] is None implies self.free@.contains(z) by {
                        assert(o.slots@[z as int] is None);
                    }
                    assert forall|x: int|
                        0 <= x < self.free@.len() implies (#[trigger] self.free@[x]) < s2.len()
                        && s2[self.free@[x] as int] is None by {
                        assert(o.slots@[self.free@[x] as int] is None);
                        assert(self.free@[x] != i);
                    }
                    assert forall|k2: K| #[trigger] self.index@.contains_key(k2) implies exists|x: int|
                        0 <= x < ord.len() && self.key_at(#[trigger] ord[x]) == k2 by {
                        let x = choose|x: int| 0 <= x < ord.len() && o.key_at(#[trigger] ord[x]) == k2;
                        assert(self.key_at(ord[x]) == k2);
                    }
                    assert(self.wf());
                    assert forall|x: int|
                        0 <= x < ord.len() implies #[trigger] self.entries()[x] == o.entries().update(
                        j,
                        (k, v),
                    )[x] by {
                        if x != j {
                            assert(ord[x] != i);
                            assert(s2[ord[x] as int] == o.slots@[ord[x] as int]);
                        }
                    }
                    assert(self.entries() =~= o.entries().update(j, (k, v)));
                }
                (i, Some(prior))
            },
            None => {
                proof {
                    assert(o.order@.len() < o.slots@.len());
                    assert(o.free@.len() > 0);
                }
                let iopt = self.free.pop();
                let i = iopt.unwrap();
                let kc = k.clone();
                proof {
                    assert(call_ensures(K::clone, (&k,), kc));
                    assert(kc == k);
                    assert(o.free@[o.free@.len() - 1] == i);
                    assert(i < o.slots@.len() && o.slots@[i as int] is None);
                }
                let node = Node::new(k, v, m);
                self.slots[i] = Some(node);
                let _ = self.index.insert(kc, i);
                proof {
                    let ord = o.order@;
                    let s2 = self.slots@;
                    let f2 = self.free@;
                    let m2 = self.index@;
                    assert(f2 =~= o.free@.subrange(0, o.free@.len() - 1));
                    assert(m2 =~= o.index@.insert(k, i));
                    assert forall|z: int|
                        0 <= z < s2.len() && z != i implies s2[z] == o.slots@[z] by {}
                    assert(self.occupied(i));
                    assert(self.node_of(i).spec_kv() == (k, v));
                    assert(self.key_at(i) == k);
                    assert(self.prev_of(i) is None && self.next_of(i) is None);
                    if ord.contains(i) {
                        let x = choose|x: int| 0 <= x < ord.len() && ord[x] == i;
                        assert(o.occupied(ord[x]));
                        assert(false);
                    }
                    assert forall|x: int|
                        0 <= x < ord.len() implies self.occupied(#[trigger] ord[x])
                        && self.node_of(ord[x]) == o.node_of(ord[x]) by {
                        assert(ord[x] != i);
                    }
                    assert forall|z: usize|
                        z < s2.len() && s2[z as int] is Some implies z == i || ord.contains(z) by {
                        if z != i {
                            assert(o.slots@[z as int] is Some);
                        }
                    }
                    assert forall|x: int|
                        0 <= x < f2.len() implies (#[trigger] f2[x]) < s2.len() && s2[f2[x] as int] is None
                        by {
                        assert(f2[x] == o.free@[x]);
                        assert(o.free@[x] != i);
                        assert(o.slots@[f2[x] as int] is None);
                    }
                    assert forall|z: usize|
                        z < s2.len() && s2[z as int] is None implies f2.contains(z) by {
                        assert(z != i);
                        assert(o.slots@[z as int] is None);
                        assert(o.free@.contains(z));
                        let x = choose|x: int| 0 <= x < o.free@.len() && o.free@[x] == z;
                        assert(x != o.free@.len() - 1);
                        assert(f2[x] == z);
                    }
                    assert(f2.len() + ord.len() + 1 == s2.len());
                    // No stored key equals `k`, so the index grew by
                    // exactly the new binding.
                    assert forall|x: int|
                        0 <= x < ord.len() implies self.key_at(#[trigger] ord[x]) != k by {
                        assert(self.key_at(ord[x]) == o.key_at(ord[x]));
                        assert(o.entries()[x].0 == o.key_at(ord[x]));
                        if o.key_at(ord[x]) == k {
                            assert(has_key(o.entries(), k));
                        }
                    }
                    assert forall|x: int| 0 <= x < ord.len() implies {
                        &&& m2.contains_key(#[trigger] self.key_at(ord[x]))
                        &&& m2[self.key_at(ord[x])] == ord[x]
                    } by {
                        assert(self.key_at(ord[x]) == o.key_at(ord[x]));
                        assert(o.index@.contains_key(o.key_at(ord[x])));
                        assert(o.index@[o.key_at(ord[x])] == ord[x]);
                        assert(self.key_at(ord[x]) != k);
                    }
                    assert forall|k2: K| #[trigger] m2.contains_key(k2) implies k2 == self.key_at(i)
                        || exists|x: int| 0 <= x < ord.len() && self.key_at(#[trigger] ord[x]) == k2
                        by {
                        if k2 != k {
                            assert(o.index@.contains_key(k2));
                            let x = choose|x: int|
                                0 <= x < ord.len() && o.key_at(#[trigger] ord[x]) == k2;
                            assert(self.key_at(ord[x]) == k2);
                        }
                    }
                    assert(self.wf_detached(i));
                    assert forall|x: int|
                        0 <= x < ord.len() implies #[trigger] self.entries()[x] == o.entries()[x] by {
                        assert(ord[x] != i);
                    }
                    assert(self.entries() =~= o.entries());
                }
                (i, None)
            },
        }
    }

    /// Make the node in slot `i` the head of the recency list. A node
    /// already at the head is left alone; a linked node elsewhere is
    /// unlinked first; a detached node is simply attached. In every case
    /// the node's entry ends up most recently used and nothing else
    /// changes its relative order.
    fn to_head(&mut self, i: usize)
        requires
            old(self).wf() && old(self).rec_order().contains(i) || old(self).wf_detached(i),
        ensures
            final(self).wf(),
            final(self).spec_capacity() == old(self).spec_capacity(),
            final(self).node_of(i).spec_kv() == old(self).node_of(i).spec_kv(),
            old(self).wf() && old(self).rec_order().contains(i) ==> {
                let j = old(self).rec_order().index_of(i);
                &&& final(self).rec_order() == seq![i] + old(self).rec_order().remove(j)
                &&& final(self).entries() == seq![old(self).entries()[j]] + old(
                    self,
                ).entries().remove(j)
            },
            old(self).wf_detached(i) ==> {
                &&& final(self).rec_order() == seq![i] + old(self).rec_order()
                &&& final(self).entries() == seq![old(self).node_of(i).spec_kv()] + old(
                    self,
                ).entries()
            },
    {
        let ghost o = *self;
        let ghost linked = o.wf() && o.rec_order().contains(i);
        proof {
            if linked && o.wf_detached(i) {
                assert(o.free@.len() + o.order@.len() == o.slots@.len());
                assert(false);
            }
        }
        let already_head = match self.head {
            Some(h) => h == i,
            None => false,
        };
        if already_head {
            proof {
                if !linked {
                    assert(o.order@.len() == 0 || o.order@[0] != i);
                    if o.order@.len() > 0 && o.head == Some(i) {
                        assert(o.order@[0] == i);
                    }
                    assert(false);
                }
                let j = o.rec_order().index_of(i);
                let jw = choose|x: int| 0 <= x < o.order@.len() && o.order@[x] == i;
                assert(o.order@[jw] == i);
                assert(0 <= j < o.order@.len() && o.order@[j] == i);
                assert(o.order@[0] == i);
                if j != 0 {
                    assert(o.order@[j] == o.order@[0]);
                }
                assert(j == 0);
                assert(self.rec_order() =~= seq![i] + o.rec_order().remove(0));
                assert(self.entries() =~= seq![o.entries()[0]] + o.entries().remove(0));
            }
        } else {
            proof {
                if linked {
                    assert(o.occupied(i));
                } else {
                    assert(o.wf_detached(i) && o.occupied(i));
                }
            }
            let (lp, ln) = self.links_of(i);
            if lp.is_none() && ln.is_none() {
                proof {
                    if linked {
                        let j = o.rec_order().index_of(i);
                        let jw = choose|x: int| 0 <= x < o.order@.len() && o.order@[x] == i;
                        assert(o.order@[jw] == i);
                        assert(0 <= j < o.order@.len() && o.order@[j] == i);
                        assert(o.prev_of(o.order@[j]) is None ==> j == 0);
                        assert(o.head == Some(i));
                        assert(false);
                    }
                    assert(o.wf_detached(i));
                }
                self.attach(i);
            } else {
                proof {
                    if !linked {
                        assert(o.wf_detached(i));
                        assert(lp is None && ln is None);
                        assert(false);
                    }
                }
                self.detach(i);
                self.attach(i);
                proof {
                    let j = o.rec_order().index_of(i);
                    assert(self.entries() =~= seq![o.entries()[j]] + o.entries().remove(j));
                }
            }
        }
    }

    /// Insert a key-value pair into the cache at the head of the list and
    /// return the old value if there is one. A full cache first evicts its
    /// least recently used entry; a cache of capacity zero stores nothing
    /// and hands back nothing.
    pub fn push_front(&mut self, k: K, v: V) -> (r: Option<Arc<(K, V)>>)
        requires
            old(self).wf(),
        ensures
            final(self).wf(),
            final(self).spec_capacity() == old(self).spec_capacity(),
            final(self).entries() == pushed(
                old(self).entries(),
                old(self).spec_capacity(),
                k,
                v,
            ),
            r matches Some(c) ==> push_returns(
                old(self).entries(),
                old(self).spec_capacity(),
                k,
                v,
            ) == Some(*c),
            r is None ==> push_returns(old(self).entries(), old(self).spec_capacity(), k, v) is None,
            old(self).spec_capacity() > 0 ==> final(self).spec_len() > 0 && final(self).entries()[0]
                == (k, v),
    {
        let ghost o = *self;
        self.lock();
        if self.len() == self.capacity() {
            match self.tail {
                Some(t) => {
                    proof {
                        let ord = o.order@;
                        assert(ord.len() == o.spec_capacity() && ord.len() > 0);
                        assert(t == ord[ord.len() - 1]);
                        assert(ord.contains(t));
                    }
                    let _evicted = self.remove(t);
                    proof {
                        let ord = o.order@;
                        let j = ord.index_of(t);
                        if j != ord.len() - 1 {
                            assert(ord[j] == ord[ord.len() - 1]);
                        }
                        assert(j == ord.len() - 1);
                        assert(self.entries() =~= o.entries().drop_last());
                        assert(self.entries() == after_eviction(o.entries(), o.spec_capacity()));
                    }
                },
                None => {
                    proof {
                        assert(o.order@.len() == 0);
                        assert(o.spec_capacity() == 0);
                        assert(pushed(o.entries(), o.spec_capacity(), k, v) == o.entries());
                    }
                    self.unlock();
                    return None;
                },
            }
        } else {
            proof {
                assert(o.entries().len() < o.spec_capacity());
                assert(after_eviction(o.entries(), o.spec_capacity()) == o.entries());
            }
        }
        let ghost mid = *self;
        proof {
            assert(mid.entries() == after_eviction(o.entries(), o.spec_capacity()));
            assert(mid.entries().len() < mid.spec_capacity());
        }
        let (i, prior) = self.upsert(k, v, Meta::new());
        proof {
            mid.lemma_index_entries();
            if has_key(mid.entries(), k) {
                let j = index_of_key(mid.entries(), k);
                let ord1 = mid.order@;
                assert(self.rec_order() == ord1 && self.rec_order()[j] == i);
                let jx = self.rec_order().index_of(i);
                assert(self.rec_order().contains(i));
                assert(0 <= jx < ord1.len() && ord1[jx] == i);
                if jx != j {
                    assert(ord1[jx] == ord1[j]);
                }
                assert(jx == j);
            }
        }
        let ghost up = *self;
        self.to_head(i);
        proof {
            let s1 = mid.entries();
            let cap = o.spec_capacity();
            if has_key(s1, k) {
                let j = index_of_key(s1, k);
                assert(up.entries() == s1.update(j, (k, v)));
                assert(up.rec_order().index_of(i) == j);
                assert(self.entries() == seq![up.entries()[j]] + up.entries().remove(j));
                assert(up.entries()[j] == (k, v));
                assert forall|x: int|
                    0 <= x < s1.remove(j).len() implies #[trigger] s1.update(j, (k, v)).remove(
                    j,
                )[x] == s1.remove(j)[x] by {}
                assert(s1.update(j, (k, v)).remove(j) =~= s1.remove(j));
                assert(self.entries() == upserted(s1, k, v));
                assert(prior matches Some(c) && *c == s1[j]);
                assert(push_returns(o.entries(), cap, k, v) == Some(s1[j]));
            } else {
                assert(up.wf_detached(i));
                assert(up.entries() == s1);
                assert(up.node_of(i).spec_kv() == (k, v));
                assert(self.entries() == seq![(k, v)] + s1);
                assert(self.entries() == upserted(s1, k, v));
                assert(prior is None);
                assert(push_returns(o.entries(), cap, k, v) is None);
            }
            assert(self.entries() == pushed(o.entries(), cap, k, v));
            assert(self.entries()[0] == (k, v));
        }
        self.unlock();
        prior
    }

    /// Return and remove the least recently used entry, unless the cache
    /// is empty.
    pub fn pop_back(&mut self) -> (r: Option<Arc<(K, V)>>)
        requires
            old(self).wf(),
        ensures
            final(self).wf(),
            final(self).spec_capacity() == old(self).spec_capacity(),
            old(self).spec_len() == 0 ==> r is None && final(self).entries() == old(self).entries(),
            old(self).spec_len() > 0 ==> {
                &&& r matches Some(c) && *c == old(self).entries().last()
                &&& final(self).entries() == old(self).entries().drop_last()
            },
    {
        let ghost o = *self;
        self.lock();
        let r = match self.tail {
            None => {
                proof {
                    assert(o.order@.len() == 0);
                }
                None
            },
            Some(t) => {
                proof {
                    let ord = o.order@;
                    assert(ord.len() > 0 && t == ord[ord.len() - 1]);
                    assert(ord.contains(t));
                }
                let node = self.remove(t);
                proof {
                    let ord = o.order@;
                    let j = ord.index_of(t);
                    if j != ord.len() - 1 {
                        assert(ord[j] == ord[ord.len() - 1]);
                    }
                    assert(j == ord.len() - 1);
                    assert(self.entries() =~= o.entries().drop_last());
                    assert(node.spec_kv() == o.entries().last());
                }
                Some(node.kv)
            },
        };
        self.unlock();
        r
    }

    /// Look the key up; a hit promotes the entry to most recently used and
    /// returns a fresh handle on its shared cell, a miss changes nothing.
    pub fn get(&mut self, k: &K) -> (r: Option<Arc<(K, V)>>)
        requires
            old(self).wf(),
        ensures
            final(self).wf(),
            final(self).spec_capacity() == old(self).spec_capacity(),
            r is Some <==> has_key(old(self).entries(), *k),
            !has_key(old(self).entries(), *k) ==> final(self).entries() == old(self).entries(),
            has_key(old(self).entries(), *k) ==> {
                let j = index_of_key(old(self).entries(), *k);
                &&& r matches Some(c) && *c == old(self).entries()[j]
                &&& final(self).entries() == promoted(old(self).entries(), *k)
                &&& final(self).entries()[0] == old(self).entries()[j]
            },
    {
        let ghost o = *self;
        self.lock();
        let r = match self.find(k) {
            None => None,
            Some(i) => {
                let ghost j = index_of_key(o.entries(), *k);
                proof {
                    o.lemma_index_entries();
                    let ord = o.order@;
                    assert(0 <= j < ord.len() && ord[j] == i);
                    assert(ord.contains(i));
                    let jx = ord.index_of(i);
                    assert(0 <= jx < ord.len() && ord[jx] == i);
                    if jx != j {
                        assert(ord[jx] == ord[j]);
                    }
                    assert(jx == j);
                    assert(o.node_of(i).spec_kv() == o.entries()[j]);
                }
                self.to_head(i);
                proof {
                    assert(self.rec_order() == seq![i] + o.rec_order().remove(j));
                    assert(self.rec_order()[0] == i);
                    assert(self.rec_order().contains(i));
                    assert(self.occupied(i));
                    assert(self.node_of(i).spec_kv() == o.entries()[j]);
                    assert(self.entries() == promoted(o.entries(), *k));
                }
                let c = match &self.slots[i] {
                    Some(nd) => nd.kv.clone(),
                    None => vstd::pervasive::unreached(),
                };
                proof {
                    assert(*c == o.entries()[j]);
                }
                Some(c)
            },
        };
        self.unlock();
        r
    }

    /// Check that the endpoints terminate the list as expected: the head's
    /// backward link must be `p` and the tail's forward link `n`. The
    /// invariant proves both links are always `None`, so on a well-formed,
    /// non-empty cache this probe can never fire; it stays executable as a
    /// sanity check for tests.
    pub fn assert_head_tail(&self, p: Option<usize>, n: Option<usize>)
        requires
            self.wf(),
            self.spec_len() > 0,
            p is None,
            n is None,
        ensures
            self.spec_head() is Some && self.prev_of(self.spec_head().unwrap()) == p,
            self.spec_tail() is Some && self.next_of(self.spec_tail().unwrap()) == n,
    {
        proof {
            let ord = self.order@;
            assert(ord.len() > 0);
            assert(self.head == Some(ord[0]) && self.occupied(ord[0]));
            assert(self.tail == Some(ord[ord.len() - 1]) && self.occupied(ord[ord.len() - 1]));
        }
        let head_ok = match self.head {
            Some(h) => {
                let (hp, _) = self.links_of(h);
                hp.is_none() && p.is_none()
            },
            None => false,
        };
        let tail_ok = match self.tail {
            Some(t) => {
                let (_, tn) = self.links_of(t);
                tn.is_none() && n.is_none()
            },
            None => false,
        };
        if !(head_ok && tail_ok) {
            proof {
                assert(false);
            }
            vstd::pervasive::unreached::<()>()
        }
    }

    /// Bounded occupancy: a well-formed cache never holds more entries
    /// than its fixed capacity.
    pub proof fn lemma_bounded_occupancy(&self)
        requires
            self.wf(),
        ensures
            self.spec_len() <= self.spec_capacity(),
    {
    }

    /// List well-formedness: the head has no predecessor, the tail has no
    /// successor, each forward link is mirrored by the neighbour's
    /// backward link and vice versa, and the endpoints are empty exactly
    /// on the empty cache.
    pub proof fn lemma_list_well_formed(&self)
        requires
            self.wf(),
        ensures
            self.spec_head() matches Some(h) ==> self.occupied(h) && self.prev_of(h) is None,
            self.spec_tail() matches Some(t) ==> self.occupied(t) && self.next_of(t) is None,
            forall|i: usize|
                self.occupied(i) && (#[trigger] self.next_of(i)) is Some ==> self.occupied(
                    self.next_of(i).unwrap(),
                ) && self.prev_of(self.next_of(i).unwrap()) == Some(i),
            forall|i: usize|
                self.occupied(i) && (#[trigger] self.prev_of(i)) is Some ==> self.occupied(
                    self.prev_of(i).unwrap(),
                ) && self.next_of(self.prev_of(i).unwrap()) == Some(i),
            self.spec_head() is None <==> self.spec_len() == 0,
            self.spec_tail() is None <==> self.spec_len() == 0,
    {
        let ord = self.order@;
        assert forall|i: usize|
            self.occupied(i) && (#[trigger] self.next_of(i)) is Some implies self.occupied(
            self.next_of(i).unwrap(),
        ) && self.prev_of(self.next_of(i).unwrap()) == Some(i) by {
            assert(ord.contains(i));
            let x = choose|x: int| 0 <= x < ord.len() && ord[x] == i;
            assert(self.next_of(ord[x]) == (if x == ord.len() - 1 {
                None
            } else {
                Some(ord[x + 1])
            }));
            assert(x < ord.len() - 1);
            assert(self.next_of(i) == Some(ord[x + 1]));
            assert(self.prev_of(ord[x + 1]) == Some(ord[x]));
        }
        assert forall|i: usize|
            self.occupied(i) && (#[trigger] self.prev_of(i)) is Some implies self.occupied(
            self.prev_of(i).unwrap(),
        ) && self.next_of(self.prev_of(i).unwrap()) == Some(i) by {
            assert(ord.contains(i));
            let x = choose|x: int| 0 <= x < ord.len() && ord[x] == i;
            assert(self.prev_of(ord[x]) == (if x == 0 {
                None
            } else {
                Some(ord[x - 1])
            }));
            assert(x > 0);
            assert(self.prev_of(i) == Some(ord[x - 1]));
            assert(self.next_of(ord[x - 1]) == Some(ord[x]));
        }
    }

    /// Uniqueness: at most one live slot per key.
    pub proof fn lemma_key_uniqueness(&self)
        requires
            self.wf(),
        ensures
            unique_keys(self.entries()),
    {
        self.lemma_index_entries();
    }

    /// Index-list agreement: walking the list from the head meets exactly
    /// the keys the index maps, each exactly once, and both counts equal
    /// the number of entries.
    pub proof fn lemma_index_list_agreement(&self)
        requires
            self.wf(),
        ensures
            keys_of(self.entries()).no_duplicates(),
            forall|k: K|
                self.index_map().contains_key(k) <==> keys_of(self.entries()).contains(k),
            self.index_map().dom().len() == self.spec_len(),
            keys_of(self.entries()).len() == self.spec_len(),
    {
        self.lemma_index_entries();
        let ks = keys_of(self.entries());
        assert(ks.len() == self.entries().len());
        assert forall|x: int| 0 <= x < ks.len() implies #[trigger] ks[x] == self.entries()[x].0 by {}
        assert forall|x1: int, x2: int|
            0 <= x1 < ks.len() && 0 <= x2 < ks.len() && x1 != x2 implies ks[x1] != ks[x2] by {
            assert(ks[x1] == self.entries()[x1].0 && ks[x2] == self.entries()[x2].0);
        }
        assert(ks.no_duplicates());
        assert forall|k: K| self.index_map().contains_key(k) implies keys_of(
            self.entries(),
        ).contains(k) by {
            assert(has_key(self.entries(), k));
            let j = choose|j: int| 0 <= j < self.entries().len() && self.entries()[j].0 == k;
            assert(ks[j] == k);
        }
        assert forall|k: K| keys_of(self.entries()).contains(k) implies self.index_map().contains_key(
            k,
        ) by {
            let j = choose|j: int| 0 <= j < ks.len() && ks[j] == k;
            assert(self.entries()[j].0 == k);
            assert(has_key(self.entries(), k));
        }
        assert(self.index_map().dom() =~= ks.to_set());
        ks.unique_seq_to_set();
    }
}

} // verus!
