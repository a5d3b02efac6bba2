use lru_cache::LRUCache;
use lru_cache::LRUCacheBase;

#[test]
fn capacity_two_scenario() {
    let mut c = LRUCache::new(2);
    c.put(1, 1);
    c.put(2, 2);
    assert_eq!(c.get(1), 1);
    c.put(3, 3); // evicts key 2, the least recently used
    assert_eq!(c.get(2), -1);
    c.put(4, 4); // evicts key 1
    assert_eq!(c.get(1), -1);
    assert_eq!(c.get(3), 3);
    assert_eq!(c.get(4), 4);
}

#[test]
fn zero_capacity_never_holds() {
    let mut c = LRUCache::new(0);
    c.put(1, 1);
    assert_eq!(c.get(1), -1);
    assert_eq!(c.len(), 0);
    for i in 0..100 {
        c.put(i, i);
        assert_eq!(c.len(), 0);
        assert_eq!(c.get(i), -1);
    }
}

#[test]
fn capacity_is_never_exceeded() {
    let mut c = LRUCache::new(3);
    for i in 0..50 {
        c.put(i, 2 * i);
        assert!(c.len() <= 3);
    }
    assert_eq!(c.len(), 3);
}

#[test]
fn eviction_follows_insertion_order_without_reads() {
    let mut c = LRUCache::new(3);
    for i in 1..=3 {
        c.put(i, 10 * i);
    }
    for i in 4..=6 {
        // Each overflow evicts the earliest-inserted key still resident;
        // probing the evicted key is a miss and does not disturb recency.
        c.put(i, 10 * i);
        assert_eq!(c.get(i - 3), -1);
    }
    assert_eq!(c.get(4), 40);
    assert_eq!(c.get(5), 50);
    assert_eq!(c.get(6), 60);
}

#[test]
fn get_bumps_recency() {
    let mut c = LRUCache::new(2);
    c.put(1, 1);
    c.put(2, 2);
    assert_eq!(c.get(1), 1); // 1 becomes most recent, 2 is now LRU
    c.put(3, 3); // evicts 2
    assert_eq!(c.get(2), -1);
    assert_eq!(c.get(1), 1);
    assert_eq!(c.get(3), 3);
}

#[test]
fn put_on_existing_key_bumps_recency() {
    let mut c = LRUCache::new(2);
    c.put(1, 1);
    c.put(2, 2);
    c.put(1, 11); // rebinding 1 makes it most recent; 2 is now LRU
    assert_eq!(c.len(), 2);
    c.put(3, 3); // evicts 2
    assert_eq!(c.get(2), -1);
    assert_eq!(c.get(1), 11);
    assert_eq!(c.get(3), 3);
}

#[test]
fn reputting_same_pair_still_counts_as_access() {
    let mut c = LRUCache::new(2);
    c.put(1, 1);
    c.put(2, 2);
    c.put(1, 1); // same key and value: still a recency bump
    c.put(3, 3); // so 2, not 1, is evicted
    assert_eq!(c.get(1), 1);
    assert_eq!(c.get(2), -1);
    assert_eq!(c.get(3), 3);
}

#[test]
fn update_in_place_is_not_eviction_pressure() {
    let mut c = LRUCache::new(2);
    c.put(1, 1);
    c.put(2, 2);
    c.put(2, 22);
    c.put(1, 111);
    assert_eq!(c.len(), 2);
    assert_eq!(c.get(1), 111);
    assert_eq!(c.get(2), 22);
}

#[test]
fn round_trip_put_then_get() {
    let mut c = LRUCache::new(1);
    for i in 0..20 {
        c.put(i, i + 100);
        assert_eq!(c.get(i), i + 100);
    }
}

#[test]
fn repeated_misses_do_not_mutate() {
    let mut c = LRUCache::new(2);
    c.put(7, 70);
    for _ in 0..10 {
        assert_eq!(c.get(8), -1); // never inserted
        assert_eq!(c.len(), 1);
    }
    c.put(9, 90);
    c.put(10, 100); // evicts 7
    for _ in 0..10 {
        assert_eq!(c.get(7), -1); // already evicted
        assert_eq!(c.len(), 2);
    }
    assert_eq!(c.get(9), 90);
    assert_eq!(c.get(10), 100);
}

#[test]
fn negative_value_is_indistinguishable_from_miss_through_get() {
    let mut c = LRUCache::new(2);
    c.put(5, -1);
    assert_eq!(c.get(5), -1);
    assert_eq!(c.len(), 1);
}

#[test]
fn generic_base_with_other_key_and_value_types() {
    let mut c: LRUCacheBase<u8, u64> = LRUCacheBase::new(2);
    c.put(1, 10);
    c.put(2, 20);
    assert_eq!(c.get(&1), Some(10));
    c.put(3, 30); // evicts 2
    assert_eq!(c.get(&2), None);
    assert_eq!(c.get(&1), Some(10));
    assert_eq!(c.get(&3), Some(30));
    assert_eq!(c.len(), 2);
}

#[test]
fn generic_base_miss_on_empty() {
    let mut c: LRUCacheBase<i64, i64> = LRUCacheBase::new(4);
    assert_eq!(c.get(&42), None);
    assert_eq!(c.len(), 0);
}

/// A straightforward reference model: pairs kept most-recent-first in a
/// vector, scanned linearly.
struct NaiveLru {
    cap: usize,
    pairs: Vec<(i32, i32)>,
}

impl NaiveLru {
    fn new(cap: usize) -> Self {
        NaiveLru { cap, pairs: Vec::new() }
    }

    fn get(&mut self, k: i32) -> i32 {
        if let Some(p) = self.pairs.iter().position(|&(pk, _)| pk == k) {
            let pair = self.pairs.remove(p);
            self.pairs.insert(0, pair);
            self.pairs[0].1
        } else {
            -1
        }
    }

    fn put(&mut self, k: i32, v: i32) {
        if let Some(p) = self.pairs.iter().position(|&(pk, _)| pk == k) {
            self.pairs.remove(p);
            self.pairs.insert(0, (k, v));
        } else if self.cap > 0 {
            if self.pairs.len() == self.cap {
                self.pairs.pop();
            }
            self.pairs.insert(0, (k, v));
        }
    }
}

#[test]
fn agrees_with_reference_model_on_random_workload() {
    for cap in [0usize, 1, 2, 3, 7] {
        let mut c = LRUCache::new(cap as i32);
        let mut n = NaiveLru::new(cap);
        let mut state: u64 = 0x2545_f491_4f6c_dd1d;
        for _ in 0..2000 {
            // A small linear congruential generator keeps the run deterministic.
            state = state.wrapping_mul(6364136223846793005).wrapping_add(1442695040888963407);
            let key = ((state >> 33) % 11) as i32;
            let val = ((state >> 17) % 1000) as i32;
            if state % 3 == 0 {
                assert_eq!(c.get(key), n.get(key));
            } else {
                c.put(key, val);
                n.put(key, val);
            }
            assert_eq!(c.len(), n.pairs.len());
        }
    }
}

#[test]
fn capacity_one_keeps_only_the_latest_key() {
    let mut c = LRUCache::new(1);
    c.put(1, 10);
    c.put(2, 20);
    assert_eq!(c.get(1), -1);
    assert_eq!(c.get(2), 20);
    c.put(2, 21);
    assert_eq!(c.len(), 1);
    assert_eq!(c.get(2), 21);
}

#[test]
fn generic_base_zero_capacity() {
    let mut c: LRUCacheBase<u32, u32> = LRUCacheBase::new(0);
    c.put(1, 1);
    assert_eq!(c.get(&1), None);
    assert_eq!(c.len(), 0);
}
