use std::sync::Arc;
use twisty_puzzle::cache::GeometryCache;

#[test]
fn cache_hits_only_on_the_same_key() {
    let mut cache: GeometryCache<Vec<i32>> = GeometryCache::new();
    let params = vec![1u32, 2, 3];
    assert!(cache.get(&params, 0).is_none());
    let stored = cache.store(params.clone(), 0, vec![7, 8]);
    let hit = cache.get(&params, 0).unwrap();
    assert_eq!(*hit, vec![7, 8]);
    assert!(Arc::ptr_eq(&stored, &hit));
    // a new epoch drops the value
    assert!(cache.get(&params, 1).is_none());
    assert!(cache.get(&params, 0).is_none());
    // other parameters drop it too
    cache.store(params.clone(), 1, vec![9]);
    assert!(cache.get(&vec![1u32, 2], 1).is_none());
    assert!(cache.get(&params, 1).is_none());
    // old handles keep their snapshot
    assert_eq!(*stored, vec![7, 8]);
}

#[test]
fn cache_invalidate() {
    let mut cache: GeometryCache<u8> = GeometryCache::new();
    cache.store(vec![], 3, 5);
    assert_eq!(cache.get(&vec![], 3).map(|a| *a), Some(5));
    cache.invalidate();
    assert!(cache.get(&vec![], 3).is_none());
}
