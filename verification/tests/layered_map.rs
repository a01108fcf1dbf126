use safe_once_map::concurrent::ConcHashMap;
use safe_once_map::concurrent_fixed::CapacityError;
use safe_once_map::once::OnceCell;

type TestMap<K, V> = ConcHashMap<K, V>;

#[test]
fn tests_test() {
    let mut x: TestMap<String, OnceCell<i64>> = TestMap::with_capacity(16, 2, 16);
    let (d, i) = x.entry("a".to_string()).unwrap();
    assert_eq!(&1, x.value_get_or_init(d, i, || 1));
    let (d, i) = x.entry("b".to_string()).unwrap();
    assert_eq!(&2, x.value_get_or_init(d, i, || 2));
    let (d, i) = x.entry("a".to_string()).unwrap();
    assert_eq!(&1, x.value_get_or_init(d, i, || 3));
    let (d, i) = x.entry("b".to_string()).unwrap();
    assert_eq!(&2, x.value_get_or_init(d, i, || 4));
}

#[test]
fn layered_grows_and_keeps_all_keys() {
    // twenty distinct keys into (initial 4, ratio 2, max 64): growth is
    // forced several times and every key stays retrievable afterwards
    let mut x: TestMap<String, OnceCell<u64>> = TestMap::with_capacity(4, 2, 64);
    let mut handles = Vec::new();
    for k in 0..20u64 {
        let key = format!("key{}", k);
        let (d, i) = x.entry(key).unwrap();
        assert_eq!(*x.value_get_or_init(d, i, || k), k);
        handles.push((d, i, k));
    }
    for k in 0..20u64 {
        let key = format!("key{}", k);
        let (d, i) = x.entry(key).unwrap();
        // the cached value comes back; the initializer never reruns
        assert_eq!(*x.value_get_or_init(d, i, || 999), k);
    }
    // handles handed out before the growths still address the same values
    for (d, i, k) in handles {
        assert_eq!(*x.value_get_or_init(d, i, || 999), k);
    }
}

#[test]
fn layered_capacity_exceeded_carries_key() {
    let mut x: TestMap<String, OnceCell<u64>> = TestMap::with_capacity(4, 2, 64);
    let mut seen_err = None;
    for k in 0..400u64 {
        let key = format!("key{}", k);
        match x.entry(key) {
            Ok(_) => {},
            Err(CapacityError(lost)) => {
                assert_eq!(lost, format!("key{}", k));
                seen_err = Some(k);
                break;
            },
        }
    }
    // the tiers are finite, so some insertion beyond the total capacity
    // must be rejected, with the key handed back
    assert!(seen_err.is_some());
}

#[test]
fn layered_same_key_same_bucket() {
    let mut x: TestMap<u64, OnceCell<u64>> = TestMap::with_capacity(4, 2, 64);
    let h1 = x.entry(5).unwrap();
    let h2 = x.entry(5).unwrap();
    assert_eq!(h1, h2);
    // growth caused by other keys does not move the bucket of key 5
    for k in 100..140u64 {
        let _ = x.entry(k);
    }
    let h3 = x.entry(5).unwrap();
    assert_eq!(h1, h3);
}

#[test]
fn layered_bucket_positions_list_every_key() {
    let mut x: TestMap<u64, OnceCell<u64>> = TestMap::with_capacity(4, 2, 64);
    let mut handles = Vec::new();
    for k in 0..12u64 {
        let h = x.entry(k).unwrap();
        handles.push(h);
    }
    let listed = x.bucket_positions();
    // every handle handed out is listed exactly once
    for h in &handles {
        assert_eq!(listed.iter().filter(|p| *p == h).count(), 1);
    }
    assert_eq!(listed.len(), 12);
}

#[test]
fn layered_slot_counts() {
    let mut x: TestMap<u64, OnceCell<u64>> = TestMap::with_capacity(4, 2, 16);
    assert_eq!(x.total_slot_count(), 0);
    assert_eq!(x.last_slot_count(), 0);
    let _ = x.entry(1);
    assert_eq!(x.total_slot_count(), 4);
    assert_eq!(x.last_slot_count(), 4);
    for k in 0..14u64 {
        let _ = x.entry(k);
    }
    assert!(x.last_slot_count() >= 4);
    assert!(x.total_slot_count() >= x.last_slot_count());
}
