use std::collections::BTreeMap;
use std::collections::HashMap;
use safe_once_map::cow_entry::CowEntry;
use safe_once_map::cow_entry::CowEntryMut;
use safe_once_map::key::MapKey;
use safe_once_map::raw_map::RawMap;
use safe_once_map::raw_mutex_cell::RawMutexCell;
use safe_once_map::raw_cell_mutex::RawCellMutex;
use safe_once_map::unbounded::UnboundedRef;

#[test]
fn cow_entry_or_insert() {
    let map: HashMap<u64, i64> = HashMap::new();
    let map = CowEntryMut::new(map, 1).or_insert(10);
    assert_eq!(map.get(&1), Some(&10));
    // a present key keeps its value
    let map = CowEntryMut::new(map, 1).or_insert(99);
    assert_eq!(map.get(&1), Some(&10));
}

#[test]
fn cow_entry_or_insert_with() {
    let map: HashMap<u64, i64> = HashMap::new();
    let map = CowEntryMut::new(map, 2).or_insert_with(|| 20);
    assert_eq!(map.get(&2), Some(&20));
    let map = CowEntryMut::new(map, 2).or_insert_with(|| 99);
    assert_eq!(map.get(&2), Some(&20));
}

#[test]
fn cow_entry_or_insert_with_key() {
    let map: HashMap<u64, u64> = HashMap::new();
    let map = CowEntryMut::new(map, 3).or_insert_with_key(|k| k * 100);
    assert_eq!(map.get(&3), Some(&300));
}

#[test]
fn cow_entry_and_modify() {
    let mut map: HashMap<u64, i64> = HashMap::new();
    map.insert(4, 1);
    let e = CowEntryMut::new(map, 4).and_modify(|v| v + 1);
    assert_eq!(e.query(), 4);
    let map = e.or_insert(0);
    assert_eq!(map.get(&4), Some(&2));
    // a vacant entry is left untouched by and_modify
    let map = CowEntryMut::new(map, 5).and_modify(|v| v + 1).or_insert(7);
    assert_eq!(map.get(&5), Some(&7));
}

#[test]
fn cow_entry_or_default() {
    let map: HashMap<u64, i64> = HashMap::new();
    let map = CowEntryMut::new(map, 6).or_default();
    assert_eq!(map.get(&6), Some(&0));
}

#[test]
fn cow_entry_trait_and_occupied_ops() {
    let mut map: HashMap<u64, i64> = HashMap::new();
    map.insert(7, 70);
    match map.cow_entry_mut(7) {
        CowEntryMut::Occupied(mut o) => {
            assert_eq!(o.query(), 7);
            assert_eq!(o.key(), 7);
            assert_eq!(o.get_mut(), 70);
            assert_eq!(o.insert(71), 70);
            let m = o.into_mut();
            assert_eq!(m.get(&7), Some(&71));
        },
        CowEntryMut::Vacant(_) => panic!("key must be present"),
    }
}

#[test]
fn cow_entry_vacant_insert() {
    let map: HashMap<u64, i64> = HashMap::new();
    match map.cow_entry_mut(8) {
        CowEntryMut::Vacant(v) => {
            assert_eq!(v.query(), 8);
            let m = v.insert(80);
            assert_eq!(m.get(&8), Some(&80));
        },
        CowEntryMut::Occupied(_) => panic!("key must be absent"),
    }
}

#[test]
fn raw_map_get_or_insert() {
    let mut h: HashMap<u64, i64> = HashMap::new();
    h.get_or_insert(1, || 10);
    h.get_or_insert(1, || 99);
    assert_eq!(h.get(&1), Some(&10));
    let mut b: BTreeMap<u64, i64> = BTreeMap::new();
    b.get_or_insert(2, || 20);
    b.get_or_insert(2, || 99);
    assert_eq!(b.get(&2), Some(&20));
}

#[test]
fn unbounded_ref_shares_one_value() {
    let r = UnboundedRef::new(123u64);
    let r2 = r.duplicate();
    assert_eq!(*r.deref_unbounded(), 123);
    assert_eq!(*r2.deref_unbounded(), 123);
}

#[test]
fn mutex_flags() {
    let mut m = RawMutexCell::new();
    m.lock();
    m.unlock();
    assert!(m.try_lock());
    m.unlock();
    let mut c = RawCellMutex::new();
    assert!(c.try_lock());
    c.unlock();
    c.lock();
    c.unlock();
}

#[test]
fn string_keys_hash_and_compare_by_contents() {
    let a1 = "abc".to_string();
    let a2 = "abc".to_string();
    let b = "abd".to_string();
    assert_eq!(a1.key_hash(), a2.key_hash());
    assert!(a1.key_eq(&a2));
    assert!(!a1.key_eq(&b));
    assert_eq!(a1.clone_key(), a1);
    assert_eq!(7u64.key_hash(), 7u64.key_hash());
    assert!(7u64.key_eq(&7u64));
    assert!(!7u64.key_eq(&8u64));
}
