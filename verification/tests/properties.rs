//! Concrete exercises of the cache's stated behaviour: round trips,
//! boundary capacities, eviction under pressure, replacement, promotion
//! and the aliasing of handed-out cells.

use gws_cache::{GWSCache, Meta, Status};
use std::sync::Arc;

#[test]
fn push_then_pop_roundtrip() {
    let mut c: GWSCache<u64, &'static str> = GWSCache::new(4);
    c.push_front(11, "eleven");
    assert_eq!(*c.pop_back().unwrap(), (11, "eleven"));
    assert_eq!(c.pop_back(), None);
    assert_eq!(c.len(), 0);
}

#[test]
fn get_promotes_to_head() {
    let mut c: GWSCache<u64, u64> = GWSCache::new(2);
    c.push_front(1, 10);
    c.push_front(2, 20);
    // A hit on the tail makes it the head, so the other entry is evicted
    // next.
    assert_eq!(*c.get(&1).unwrap(), (1, 10));
    assert_eq!(*c.pop_back().unwrap(), (2, 20));
    assert_eq!(*c.pop_back().unwrap(), (1, 10));
}

#[test]
fn repeated_get_aliases_one_cell() {
    let mut c: GWSCache<&'static str, &'static str> = GWSCache::new(5);
    c.push_front("e", "fifth");
    let e1 = c.get(&"e").unwrap();
    let e2 = c.get(&"e").unwrap();
    assert_eq!(*e1, ("e", "fifth"));
    assert_eq!(*e2, ("e", "fifth"));
    // Both observations are handles on the same underlying pair.
    assert!(Arc::ptr_eq(&e1, &e2));
}

#[test]
fn zero_capacity_stores_nothing() {
    let mut c: GWSCache<u64, u64> = GWSCache::new(0);
    for i in 0..10 {
        assert_eq!(c.push_front(i, i), None);
        assert_eq!(c.len(), 0);
    }
    assert_eq!(c.pop_back(), None);
    assert_eq!(c.capacity(), 0);
}

#[test]
fn capacity_one_evicts_and_replaces() {
    let mut c: GWSCache<&'static str, u64> = GWSCache::new(1);
    c.push_front("a", 1);
    c.push_front("b", 2);
    // "a" was evicted to make room.
    assert_eq!(*c.pop_back().unwrap(), ("b", 2));

    let mut c: GWSCache<&'static str, u64> = GWSCache::new(1);
    c.push_front("a", 1);
    c.push_front("a", 2);
    assert_eq!(*c.pop_back().unwrap(), ("a", 2));
    assert_eq!(c.pop_back(), None);
}

#[test]
fn capacity_pressure_keeps_newest_five() {
    let mut c: GWSCache<u64, u64> = GWSCache::new(5);
    for i in 0..20 {
        c.push_front(i, i % 7);
        assert!(c.len() <= c.capacity());
    }
    assert_eq!(c.len(), 5);
    for i in 15..20 {
        assert_eq!(*c.pop_back().unwrap(), (i, i % 7));
    }
    for _ in 0..15 {
        assert_eq!(c.pop_back(), None);
    }
}

#[test]
fn replacement_returns_prior_cell() {
    let mut c: GWSCache<&'static str, u64> = GWSCache::new(5);
    assert_eq!(c.push_front("k", 1), None);
    let old = c.push_front("k", 2).unwrap();
    assert_eq!(*c.pop_back().unwrap(), ("k", 2));
    // The prior cell still compares equal to its old pair for any holder.
    assert_eq!(*old, ("k", 1));
}

#[test]
fn occupancy_stays_bounded_under_mixed_use() {
    let mut c: GWSCache<u64, u64> = GWSCache::new(3);
    for i in 0..30 {
        c.push_front(i % 11, i);
        assert!(c.len() <= c.capacity());
        c.get(&(i % 5));
        assert!(c.len() <= c.capacity());
        if i % 4 == 0 {
            c.pop_back();
        }
        assert!(c.len() <= c.capacity());
        if c.len() > 0 {
            c.assert_head_tail(None, None);
        }
    }
}

#[test]
fn distinct_keys_one_slot_each() {
    let mut c: GWSCache<u64, u64> = GWSCache::new(4);
    c.push_front(7, 1);
    c.push_front(7, 2);
    c.push_front(7, 3);
    // Re-inserting one key never takes a second slot.
    assert_eq!(c.len(), 1);
    assert_eq!(*c.pop_back().unwrap(), (7, 3));
    assert_eq!(c.pop_back(), None);
}

#[test]
fn lru_order_tracks_touches() {
    let mut c: GWSCache<u64, &'static str> = GWSCache::new(3);
    c.push_front(1, "one");
    c.push_front(2, "two");
    c.push_front(3, "three");
    // Touch 1, so 2 becomes the least recently used.
    c.get(&1);
    assert_eq!(*c.pop_back().unwrap(), (2, "two"));
    assert_eq!(*c.pop_back().unwrap(), (3, "three"));
    assert_eq!(*c.pop_back().unwrap(), (1, "one"));
}

#[test]
fn eviction_hits_exactly_the_tail() {
    let mut c: GWSCache<u64, u64> = GWSCache::new(3);
    c.push_front(1, 10);
    c.push_front(2, 20);
    c.push_front(3, 30);
    // Full: the next insert of a fresh key evicts 1, the current tail.
    c.push_front(4, 40);
    assert_eq!(c.get(&1), None);
    assert_eq!(*c.pop_back().unwrap(), (2, 20));
    assert_eq!(*c.pop_back().unwrap(), (3, 30));
    assert_eq!(*c.pop_back().unwrap(), (4, 40));
}

#[derive(Debug, PartialEq)]
struct CountedMeta(u32);

impl Meta for CountedMeta {
    fn new() -> Self {
        CountedMeta(0)
    }
}

#[test]
fn custom_metadata_rides_along() {
    let mut c: GWSCache<u64, &'static str, CountedMeta> = GWSCache::new(2);
    c.push_front(1, "alpha");
    c.push_front(1, "beta");
    assert_eq!(*c.get(&1).unwrap(), (1, "beta"));
    assert_eq!(c.len(), 1);
}

#[test]
fn status_vocabulary_is_usable() {
    let s: Status<&'static str> = Status::Success("body");
    let code = match s {
        Status::Success(_) => 200u16,
        Status::NoContent => 204,
        Status::Partial(_) => 206,
        Status::NotModified => 304,
        Status::Forbidden => 403,
        Status::NotFound => 404,
        Status::RangeNotSatisfiable => 416,
        Status::Error => 500,
    };
    assert_eq!(code, 200);
}

#[test]
fn node_builds_fresh() {
    let _n: gws_cache::Node<u64, &'static str, ()> = gws_cache::Node::new(1, "one", ());
}
