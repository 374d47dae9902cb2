//! The mathematical model of the cache: a sequence of key/value pairs in
//! recency order, most recently used first. Every public operation of the
//! cache is specified as a transformation of such a sequence.

use vstd::prelude::*;

verus! {

/// The keys of the entries, in recency order.
pub open spec fn keys_of<K, V>(s: Seq<(K, V)>) -> Seq<K> {
    s.map_values(|p: (K, V)| p.0)
}

/// Some entry carries key `k`.
pub open spec fn has_key<K, V>(s: Seq<(K, V)>, k: K) -> bool {
    exists|j: int| 0 <= j < s.len() && s[j].0 == k
}

/// The position of the entry carrying key `k` (meaningful when the keys are
/// unique and `has_key` holds).
pub open spec fn index_of_key<K, V>(s: Seq<(K, V)>, k: K) -> int {
    choose|j: int| 0 <= j < s.len() && s[j].0 == k
}

/// No two entries carry the same key.
pub open spec fn unique_keys<K, V>(s: Seq<(K, V)>) -> bool {
    forall|j1: int, j2: int| 0 <= j1 < j2 < s.len() ==> s[j1].0 != s[j2].0
}

/// Entries after a lookup hit on `k`: the entry for `k` moves to the front,
/// everything else keeps its relative order.
pub open spec fn promoted<K, V>(s: Seq<(K, V)>, k: K) -> Seq<(K, V)> {
    let j = index_of_key(s, k);
    seq![s[j]] + s.remove(j)
}

/// One step of room-making: a full cache drops its least recently used
/// entry (the last), an unfilled one is left alone.
pub open spec fn after_eviction<K, V>(s: Seq<(K, V)>, cap: nat) -> Seq<(K, V)> {
    if s.len() >= cap {
        s.drop_last()
    } else {
        s
    }
}

/// Entries after inserting `(k, v)` at the front over `s`: an entry already
/// carrying `k` is superseded in place and moved to the front; otherwise the
/// new pair simply becomes the head.
pub open spec fn upserted<K, V>(s: Seq<(K, V)>, k: K, v: V) -> Seq<(K, V)> {
    if has_key(s, k) {
        seq![(k, v)] + s.remove(index_of_key(s, k))
    } else {
        seq![(k, v)] + s
    }
}

/// Entries after `push_front(k, v)` on a cache of capacity `cap`: with no
/// room to store anything the cache is untouched; otherwise a full cache
/// first evicts its tail, and then the pair is upserted at the front.
pub open spec fn pushed<K, V>(s: Seq<(K, V)>, cap: nat, k: K, v: V) -> Seq<(K, V)> {
    if cap == 0 {
        s
    } else {
        upserted(after_eviction(s, cap), k, v)
    }
}

/// The cell `push_front(k, v)` hands back: the prior entry for `k`, if one
/// survives eviction; nothing otherwise.
pub open spec fn push_returns<K, V>(s: Seq<(K, V)>, cap: nat, k: K, v: V) -> Option<(K, V)> {
    if cap == 0 {
        None
    } else {
        let s1 = after_eviction(s, cap);
        if has_key(s1, k) {
            Some(s1[index_of_key(s1, k)])
        } else {
            None
        }
    }
}

/// Capacity-driven eviction: pushing into a full cache drops exactly the
/// current tail — the least recently used entry — and only then does the
/// new pair take the head.
pub proof fn lemma_capacity_eviction<K, V>(s: Seq<(K, V)>, cap: nat, k: K, v: V)
    requires
        cap > 0,
        s.len() == cap,
    ensures
        after_eviction(s, cap) == s.drop_last(),
        pushed(s, cap, k, v) == upserted(s.drop_last(), k, v),
        push_returns(s, cap, k, v) == (if has_key(s.drop_last(), k) {
            Some(s.drop_last()[index_of_key(s.drop_last(), k)])
        } else {
            None::<(K, V)>
        }),
{
}

} // verus!
