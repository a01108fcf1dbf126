use safe_once_map::concurrent_fixed::CapacityError;
use safe_once_map::concurrent_fixed::ConcFixedHashMap;
use safe_once_map::load_factor::BuildNoLoadFactor;
use safe_once_map::load_factor::BuildSampledLoadFactor;
use safe_once_map::load_factor::LoadFactor;
use safe_once_map::load_factor::BuildLoadFactor;

#[test]
fn concurrent_fixed_test() {
    let mut x: ConcFixedHashMap<String, String> =
        ConcFixedHashMap::with_capacity(3, BuildSampledLoadFactor);
    let i = x.get(&"a".to_string()).unwrap();
    assert_eq!(x.get_or_init_value(i, || "b".to_string()), "b");
    let i = x.get(&"a".to_string()).unwrap();
    assert_eq!(x.get_or_init_value(i, || "c".to_string()), "b");
}

#[test]
fn fixed_capacity_exceeded_carries_key() {
    // four slots fill up; the fifth distinct key rides back in the error
    let mut x: ConcFixedHashMap<String, u64, _> =
        ConcFixedHashMap::with_capacity(4, BuildNoLoadFactor);
    assert!(x.entry("a".to_string()).is_ok());
    assert!(x.entry("b".to_string()).is_ok());
    assert!(x.entry("c".to_string()).is_ok());
    assert!(x.entry("d".to_string()).is_ok());
    match x.entry("e".to_string()) {
        Err(CapacityError(k)) => assert_eq!(k, "e"),
        Ok(_) => panic!("fifth key must be rejected"),
    }
}

#[test]
fn fixed_same_key_same_slot() {
    let mut x: ConcFixedHashMap<u64, u64, _> =
        ConcFixedHashMap::with_capacity(8, BuildNoLoadFactor);
    let i1 = x.entry(42).unwrap();
    let i2 = x.entry(42).unwrap();
    assert_eq!(i1, i2);
    let j = x.entry(7).unwrap();
    assert_ne!(i1, j);
    assert_eq!(x.entry(42).unwrap(), i1);
}

#[test]
fn fixed_values_survive_other_insertions() {
    let mut x: ConcFixedHashMap<u64, u64, _> =
        ConcFixedHashMap::with_capacity(16, BuildNoLoadFactor);
    let i = x.entry(1).unwrap();
    assert_eq!(*x.get_or_init_value(i, || 100), 100);
    for k in 2..10u64 {
        let j = x.entry(k).unwrap();
        x.get_or_init_value(j, || k * 10);
    }
    // the first value is untouched by the later insertions
    assert_eq!(x.try_get_value(i), Some(&100));
}

#[test]
fn fixed_find_is_read_only() {
    let mut x: ConcFixedHashMap<String, u64, _> =
        ConcFixedHashMap::with_capacity(8, BuildNoLoadFactor);
    assert!(x.find(&"a".to_string()).is_none());
    let i = x.entry("a".to_string()).unwrap();
    assert_eq!(x.find(&"a".to_string()), Some(i));
    assert_eq!(x.get(&"a".to_string()).unwrap(), i);
    assert!(x.find(&"b".to_string()).is_none());
}

#[test]
fn sampled_budget_spends_down_to_full() {
    // capacity 4 gives a budget of three admissions with every slot sampled
    let mut x: ConcFixedHashMap<u64, u64> =
        ConcFixedHashMap::with_capacity(4, BuildSampledLoadFactor);
    assert!(x.entry(1).is_ok());
    assert!(x.entry(2).is_ok());
    assert!(x.entry(3).is_ok());
    assert!(x.is_full());
    assert!(x.entry(4).is_err());
    // present keys are still found after the table filled up
    assert!(x.entry(2).is_ok());
}

#[test]
fn sampled_load_factor_is_monotone() {
    // capacity 8 gives an admission budget of 6; once spent, the policy
    // reports full and never becomes non-full again
    let mut policy = BuildSampledLoadFactor.build_load_factor(8);
    let mut failures = 0u32;
    for i in 0..16usize {
        let full_before = policy.is_full();
        let r = policy.try_insert(i);
        if full_before {
            assert!(r.is_err());
            assert!(policy.is_full());
        }
        if r.is_err() {
            failures += 1;
        }
    }
    assert!(policy.is_full());
    assert!(failures > 0);
    assert!(policy.try_insert(0).is_err());
    assert!(policy.is_full());
}

#[test]
fn fixed_map_reports_full_after_budget() {
    let mut x: ConcFixedHashMap<u64, u64> =
        ConcFixedHashMap::with_capacity(8, BuildSampledLoadFactor);
    assert!(!x.is_full());
    let mut rejected = false;
    for k in 0..16u64 {
        if x.entry(k).is_err() {
            rejected = true;
            // monotone: once full, later inserts of new keys keep failing
            assert!(x.is_full());
        }
    }
    assert!(rejected);
}
