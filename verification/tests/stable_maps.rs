use safe_once_map::lazy_map::LazyMap;
use safe_once_map::once_map::OnceMap;
use safe_once_map::sharded_stable_map::ShardedStableMap;
use safe_once_map::stable_map::StableMap;

#[test]
fn cell_test() {
    let mut map: OnceMap<String, String> = OnceMap::new();
    assert_eq!("b", map.get_or_init("a".to_string(), || "b".to_string()));
    assert_eq!("b", map.get_or_init("a".to_string(), || "c".to_string()));
}

#[test]
fn sync_test() {
    let mut map: OnceMap<String, String> = OnceMap::new();
    assert_eq!("b", map.get_or_init("a".to_string(), || "b".to_string()));
    assert_eq!("b", map.get_or_init("a".to_string(), || "c".to_string()));
}

#[test]
fn unsync_test() {
    let mut map: OnceMap<String, String> = OnceMap::new();
    assert_eq!("b", map.get_or_init("a".to_string(), || "b".to_string()));
    assert_eq!("b", map.get_or_init("a".to_string(), || "c".to_string()));
}

#[test]
fn cell_test_lazy() {
    let mut lazy: LazyMap<u64, u64, _> = LazyMap::new(|x: u64| x + x);
    assert_eq!(4, *lazy.get(2));
    assert_eq!(4, *lazy.get(2));
}

#[test]
fn sync_test_lazy() {
    let mut lazy: LazyMap<u64, u64, _> = LazyMap::new(|x: u64| x + x);
    assert_eq!(4, *lazy.get(2));
    assert_eq!(4, *lazy.get(2));
}

#[test]
fn unsync_test_lazy() {
    let mut lazy: LazyMap<u64, u64, _> = LazyMap::new(|x: u64| x + x);
    assert_eq!(4, *lazy.get(2));
    assert_eq!(4, *lazy.get(2));
}

#[test]
fn lazy_map_distinct_keys_distinct_values() {
    let mut lazy: LazyMap<u64, u64, _> = LazyMap::new(|x: u64| x * 10);
    assert_eq!(10, *lazy.get(1));
    assert_eq!(20, *lazy.get(2));
    assert_eq!(10, *lazy.get(1));
}

#[test]
fn stable_map_idempotent_lookup() {
    // the same key yields the identical index both times
    let mut map: StableMap<String, u64> = StableMap::new();
    let i1 = map.get_or_insert("k".to_string());
    let i2 = map.get_or_insert("k".to_string());
    assert_eq!(i1, i2);
    let j = map.get_or_insert("other".to_string());
    assert_ne!(i1, j);
    assert_eq!(map.get_or_insert("k".to_string()), i1);
    assert_eq!(map.len(), 2);
}

#[test]
fn stable_map_indices_are_stable_across_growth() {
    let mut map: StableMap<String, u64> = StableMap::new();
    let first = map.get_or_insert("first".to_string());
    let v = *map.get_or_init("first".to_string(), || 7);
    assert_eq!(v, 7);
    for k in 0..50u64 {
        map.get_or_insert(format!("k{}", k));
    }
    // the index and the cached value of the first key are unchanged
    assert_eq!(map.get_or_insert("first".to_string()), first);
    assert_eq!(*map.get_or_init("first".to_string(), || 99), 7);
}

#[test]
fn stable_map_borrowed_lookup() {
    let mut map: StableMap<String, u64> = StableMap::new();
    assert!(map.lookup(&"k".to_string()).is_none());
    let i = map.get_or_insert("k".to_string());
    assert_eq!(map.lookup(&"k".to_string()), Some(i));
}

#[test]
fn sharded_map_get_or_init() {
    let mut map: ShardedStableMap<String, u64> = ShardedStableMap::with_shards(3);
    assert_eq!(*map.get_or_init("a".to_string(), || 5), 5);
    assert_eq!(*map.get_or_init("a".to_string(), || 9), 5);
    assert!(map.max_shard_len() >= 1);
}

#[test]
fn sharded_map_same_key_same_handle() {
    let mut map: ShardedStableMap<String, u64> = ShardedStableMap::with_shards(2);
    let h1 = map.get_or_insert("x".to_string());
    let h2 = map.get_or_insert("x".to_string());
    assert_eq!(h1, h2);
    let mut handles = std::collections::BTreeSet::new();
    for k in 0..10u64 {
        handles.insert(map.get_or_insert(format!("s{}", k)));
    }
    assert_eq!(handles.len(), 10);
    assert_eq!(map.get_or_insert("x".to_string()), h1);
}
