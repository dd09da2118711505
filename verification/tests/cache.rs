use std::collections::hash_map::DefaultHasher;
use std::hash::{Hash, Hasher};
use rds::cache::{calculate_hash, FileCache, FileStamp, ModifiedTime};

fn stamp(secs: i64, size: u64) -> FileStamp {
    FileStamp { modified_time: ModifiedTime { secs, nanos: 0 }, file_size: size }
}

#[test]
fn test_file_cache_basic() {
    let mut cache = FileCache::new(true);
    let key = "/tmp/a.js";
    let st = stamp(10, 20);

    assert!(!cache.is_cached(key, Some(st)));
    assert!(cache.get_cached_dependencies(key).is_none());

    cache.cache_dependencies(key, key, vec![], st, "console.log('test');");

    assert!(cache.is_cached(key, Some(st)));
    let got = cache.get_cached_dependencies(key).unwrap();
    assert_eq!(got.len(), 0);

    let stats = cache.get_stats();
    assert_eq!(stats.hits, 1);
    assert_eq!(stats.misses, 1);
    assert_eq!(stats.cached_files, 1);
}

#[test]
fn test_file_cache_invalidation() {
    let mut cache = FileCache::new(true);
    let key = "/tmp/a.js";
    cache.cache_dependencies(key, key, vec![], stamp(10, 20), "console.log('test');");
    assert!(cache.is_cached(key, Some(stamp(10, 20))));
    assert!(!cache.is_cached(key, Some(stamp(11, 24))));
    // the stale entry was dropped
    assert!(!cache.is_cached(key, Some(stamp(10, 20))));
}

#[test]
fn test_cache_disabled() {
    let mut cache = FileCache::new(false);
    let key = "/tmp/a.js";
    assert!(!cache.is_cached(key, Some(stamp(1, 1))));
    cache.cache_dependencies(key, key, vec![], stamp(1, 1), "x");
    assert!(!cache.is_cached(key, Some(stamp(1, 1))));
    assert!(cache.get_cached_dependencies(key).is_none());
    assert_eq!(cache.get_stats().misses, 0);
}

#[test]
fn missing_file_is_never_cached() {
    let mut cache = FileCache::new(true);
    cache.cache_dependencies("a", "a", vec![], stamp(1, 1), "x");
    assert!(!cache.is_cached("a", None));
    assert!(cache.is_cached("a", Some(stamp(1, 1))));
}

#[test]
fn incremental_stats_reset_the_counts() {
    let mut cache = FileCache::new(true);
    cache.get_cached_dependencies("nothing");
    cache.incr_cached_tree_reuse();
    let s = cache.get_incremental_stats();
    assert_eq!((s.hits, s.misses, s.cached_tree_reuses), (0, 1, 1));
    let s2 = cache.get_stats();
    assert_eq!((s2.hits, s2.misses, s2.cached_tree_reuses), (0, 0, 0));
}

#[test]
fn disabling_clears_the_cache() {
    let mut cache = FileCache::new(true);
    cache.cache_dependencies("a", "a", vec![], stamp(1, 1), "x");
    cache.set_enabled(false);
    cache.set_enabled(true);
    assert!(!cache.is_cached("a", Some(stamp(1, 1))));
    assert_eq!(cache.get_stats().cached_files, 0);
}

#[test]
fn hash_is_that_of_the_default_hasher() {
    let mut h = DefaultHasher::new();
    "console.log('test');".hash(&mut h);
    assert_eq!(calculate_hash("console.log('test');"), h.finish());
    assert_ne!(calculate_hash("a"), calculate_hash("b"));
}
