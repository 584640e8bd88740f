use std::collections::hash_map::DefaultHasher;
use std::hash::{Hash, Hasher};

use riverbed::block_cache::{BlockCache, BlockEntry, BlockHolder, LookupResult};

fn block(len: usize, fill: u8) -> Vec<u8> {
    vec![fill; len]
}

#[test]
fn hash_matches_hashing_the_two_ids() {
    let mut hasher = DefaultHasher::default();
    7u64.hash(&mut hasher);
    3u64.hash(&mut hasher);
    assert_eq!(BlockCache::hash(7, 3), hasher.finish());
    assert_ne!(BlockCache::hash(7, 3), BlockCache::hash(3, 7));
}

#[test]
fn owned_holder_reads_its_block() {
    let h = BlockHolder::from_owned_block(vec![1, 2, 3]);
    assert_eq!(h.block(), &vec![1, 2, 3]);
    assert!(matches!(h.handle, BlockEntry::Owned));
}

#[test]
fn cached_holder_names_its_entry() {
    let h = BlockHolder::from_cached_block((7, 3), vec![9]);
    assert_eq!(h.block(), &vec![9]);
    assert!(matches!(h.handle, BlockEntry::Cache((7, 3))));
}

#[test]
fn get_on_an_empty_cache_misses() {
    let mut cache = BlockCache::new(1 << 20);
    assert!(cache.get(1, 1).is_none());
}

#[test]
fn cache_hit_pins_against_eviction() {
    // 100 bytes per shard
    let mut cache = BlockCache::new(6400);
    assert_eq!(cache.insert(7, 3, block(100, 0xab)), 0);
    let h1 = cache.get(7, 3).expect("resident after insert");
    let h2 = cache.get(7, 3).expect("second reader");
    assert_eq!(h1.block(), &block(100, 0xab));
    assert_eq!(h2.block(), &block(100, 0xab));
    for i in 0..2000u64 {
        cache.insert(1000 + i, 0, block(100, 1));
    }
    let h3 = cache.get(7, 3).expect("pinned entries are not evicted");
    cache.release(h3);
    cache.release(h1);
    cache.release(h2);
    for i in 0..2000u64 {
        cache.insert(5000 + i, 0, block(100, 2));
    }
    assert!(cache.get(7, 3).is_none());
}

#[test]
fn byte_budget_evicts_unpinned_entries() {
    let mut cache = BlockCache::new(6400);
    for i in 0..2000u64 {
        cache.insert(i, 0, block(60, 3));
    }
    for shard in &cache.shards {
        assert!(shard.usage <= shard.capacity);
    }
}

#[test]
fn single_flight_runs_the_loader_once() {
    let mut cache = BlockCache::new(10 << 20);
    let mut loads = 0;
    let mut waiting = 0;
    for _ in 0..100 {
        match cache.lookup_for_request(42, 0) {
            LookupResult::Miss => loads += 1,
            LookupResult::WaitPendingRequest => waiting += 1,
            LookupResult::Cached(_) => panic!("nothing is resident yet"),
        }
    }
    assert_eq!(loads, 1);
    assert_eq!(waiting, 99);
    let (holder, waiters) = cache.fill_request(42, 0, block(4096, 7));
    assert_eq!(waiters, 99);
    assert_eq!(holder.block(), &block(4096, 7));
    assert!(matches!(holder.handle, BlockEntry::Cache((42, 0))));
    match cache.lookup_for_request(42, 0) {
        LookupResult::Cached(h) => assert_eq!(h.block(), &block(4096, 7)),
        _ => panic!("the block is resident now"),
    }
}

#[test]
fn loader_failure_does_not_poison_the_key() {
    let mut cache = BlockCache::new(10 << 20);
    let mut loads = 0;
    assert!(matches!(cache.lookup_for_request(99, 0), LookupResult::Miss));
    loads += 1;
    for _ in 0..10 {
        assert!(matches!(cache.lookup_for_request(99, 0), LookupResult::WaitPendingRequest));
    }
    assert_eq!(cache.clear_pending_request(99, 0), 10);
    assert_eq!(cache.clear_pending_request(99, 0), 0);
    assert!(matches!(cache.lookup_for_request(99, 0), LookupResult::Miss));
    loads += 1;
    let (holder, waiters) = cache.fill_request(99, 0, block(16, 1));
    assert_eq!(waiters, 0);
    assert_eq!(holder.block(), &block(16, 1));
    assert_eq!(loads, 2);
}

#[test]
fn insert_resolves_pending_waiters() {
    let mut cache = BlockCache::new(10 << 20);
    assert!(matches!(cache.lookup_for_request(5, 5), LookupResult::Miss));
    assert!(matches!(cache.lookup_for_request(5, 5), LookupResult::WaitPendingRequest));
    assert!(matches!(cache.lookup_for_request(5, 5), LookupResult::WaitPendingRequest));
    assert_eq!(cache.insert(5, 5, block(8, 4)), 2);
    let h = cache.get(5, 5).expect("resident");
    assert_eq!(h.block(), &block(8, 4));
}

#[test]
fn second_insert_keeps_the_resident_bytes() {
    let mut cache = BlockCache::new(10 << 20);
    cache.insert(1, 2, block(4, 1));
    cache.insert(1, 2, block(4, 2));
    assert_eq!(cache.get(1, 2).unwrap().block(), &block(4, 1));
}

#[test]
fn clear_keeps_only_pinned_entries() {
    let mut cache = BlockCache::new(10 << 20);
    cache.insert(1, 1, block(4, 1));
    cache.insert(2, 2, block(4, 2));
    let pinned = cache.get(2, 2).unwrap();
    cache.clear();
    assert!(cache.get(1, 1).is_none());
    assert!(cache.get(2, 2).is_some());
    cache.release(pinned);
}

#[test]
fn owned_release_leaves_the_cache_alone() {
    let mut cache = BlockCache::new(10 << 20);
    cache.insert(3, 3, block(4, 1));
    cache.release(BlockHolder::from_owned_block(vec![1]));
    assert!(cache.get(3, 3).is_some());
}
