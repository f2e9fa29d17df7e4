use folklore::map::{DEFAULT_CAPACITY, MAX_CAPACITY};
use folklore::HashMap;

fn traits_check<T: Sized + Send + Sync + Unpin + Default>() {}

fn key(s: &str) -> String {
    s.to_string()
}

#[test]
fn test_correct_traits() {
    traits_check::<HashMap>();
}

#[test]
fn test_insert_get_one() {
    let mut map = HashMap::default();
    let k = key("Answer");
    assert!(map.insert(k.clone(), 42));
    assert_eq!(map.get(&k), Some(42));
}

#[test]
fn test_insert_update_one() {
    let mut map = HashMap::default();
    let k = key("Answer");
    assert!(map.insert(k.clone(), 42));
    map.update(&k, 76);
    assert_eq!(map.get(&k), Some(76));
}

#[test]
fn insert_duplicate() {
    let mut map = HashMap::default();
    let k = key("Answer");
    assert!(map.insert(k.clone(), 42));
    assert!(!map.insert(k.clone(), 76));
    assert!(map.contains_key(&k));
}

#[test]
fn full() {
    let mut map = HashMap::default();
    let capacity = map.effective_capacity() as u16;
    for i in 0..capacity {
        let k = format!("Answer{}", i);
        assert!(map.insert(k.clone(), i));
        assert_eq!(map.get(&k), Some(i));
    }
    assert!(!map.insert("Overflow".to_string(), 77));
}

#[test]
fn max_capacity() {
    let mut map = HashMap::with_capacity(i16::MAX as usize);
    let capacity = map.effective_capacity() as u16;
    for i in 0..capacity {
        let k = format!("Answer{i}");
        assert!(map.insert(k, i));
    }
    assert!(!map.insert(key("Overflow"), 77));
}

#[test]
fn nano_correct_traits() {
    traits_check::<HashMap>();
}

#[test]
fn nano_insert_get_one() {
    let mut map = HashMap::with_capacity(64);
    assert!(map.insert("test123".to_owned(), 26_u16));
    assert_eq!(map.get(&key("test123")), Some(26_u16));
}

#[test]
fn insert_get_max() {
    let mut map = HashMap::with_capacity(i16::MAX as usize);
    for i in 0..(i16::MAX as u16) {
        let k = format!("{i}test_test{i}");
        assert!(map.insert(k.clone(), i));
        assert!(map.get(&k).is_some());
    }
    assert!(!map.insert(key("test_overflow"), 2077));
}

#[test]
fn nano_insert_update_one() {
    let mut map = HashMap::with_capacity(64);
    assert!(map.insert("test123".to_owned(), 26_u16));
    assert_eq!(map.get(&key("test123")), Some(26));
    assert_eq!(map.update(&key("test123"), 47), Some(26));
    assert_eq!(map.get(&key("test123")), Some(47));
}

#[test]
fn insert_update_many() {
    let mut map = HashMap::with_capacity(i16::MAX as usize);
    for i in 0..(i16::MAX as u16) {
        let k = format!("{i}test_test{i}");
        assert!(map.insert(k.clone(), i));
        assert_eq!(map.get(&k), Some(i));
        assert_eq!(map.update(&k, i16::MAX as u16 - i), Some(i));
        assert_eq!(map.get(&k), Some(i16::MAX as u16 - i));
    }
    assert!(!map.insert(key("test_overflow"), 42));
}

#[test]
fn scenario_insert_get() {
    let mut m = HashMap::with_capacity(128);
    assert!(m.insert(key("Answer"), 42));
    assert_eq!(m.get(&key("Answer")), Some(42));
    assert_eq!(m.len(), 1);
}

#[test]
fn scenario_remove_then_reinsert() {
    let mut m = HashMap::with_capacity(128);
    assert!(m.insert(key("Answer"), 42));
    assert!(m.remove(&key("Answer")));
    assert_eq!(m.get(&key("Answer")), None);
    assert!(!m.contains_key(&key("Answer")));
    assert_eq!(m.len(), 0);
    assert!(m.insert(key("Answer"), 76));
    assert_eq!(m.get(&key("Answer")), Some(76));
}

#[test]
fn scenario_duplicate_keeps_first_value() {
    let mut m = HashMap::with_capacity(128);
    assert!(m.insert(key("Answer"), 42));
    assert!(!m.insert(key("Answer"), 76));
    assert_eq!(m.get(&key("Answer")), Some(42));
    assert_eq!(m.len(), 1);
}

#[test]
fn scenario_fill_to_capacity() {
    let mut m = HashMap::with_capacity(128);
    assert_eq!(m.effective_capacity(), 128);
    for i in 0..m.effective_capacity() {
        assert!(m.insert(format!("Answer{i}"), i as u16));
    }
    assert_eq!(m.len(), 128);
    assert!(!m.insert(key("Overflow"), 77));
    for i in 0..128 {
        assert_eq!(m.get(&format!("Answer{i}")), Some(i as u16));
    }
}

#[test]
fn largest_capacity_is_accepted() {
    let m = HashMap::with_capacity(MAX_CAPACITY);
    assert_eq!(m.effective_capacity(), i16::MAX as usize);
    assert_eq!(m.len(), 0);
}

#[test]
fn default_capacity() {
    let m = HashMap::default();
    assert_eq!(m.effective_capacity(), DEFAULT_CAPACITY);
    assert_eq!(m.effective_capacity(), 2048);
}

#[test]
fn zero_capacity_refuses_everything() {
    let mut m = HashMap::with_capacity(0);
    assert!(!m.insert(key("a"), 1));
    assert_eq!(m.get(&key("a")), None);
}

#[test]
fn update_and_remove_of_absent_key() {
    let mut m = HashMap::with_capacity(16);
    assert_eq!(m.update(&key("missing"), 5), None);
    assert!(!m.remove(&key("missing")));
    assert_eq!(m.get(&key("missing")), None);
}

#[test]
fn tombstones_do_not_stop_lookups() {
    // Twelve keys in a table of eight cells: probe paths overlap heavily.
    let mut m = HashMap::with_capacity(4);
    let live = [key("keep0"), key("keep1")];
    assert!(m.insert(live[0].clone(), 100));
    assert!(m.insert(live[1].clone(), 101));
    for round in 0..2u16 {
        let k = format!("churn{round}");
        assert!(m.insert(k.clone(), round));
        assert!(m.remove(&k));
        assert_eq!(m.get(&k), None);
        assert_eq!(m.get(&live[0]), Some(100));
        assert_eq!(m.get(&live[1]), Some(101));
    }
    assert_eq!(m.len(), 2);
}

#[test]
fn churn_until_key_store_is_full() {
    // Each removal leaves its key in the key store, which has room for six.
    let mut m = HashMap::with_capacity(2);
    let mut stored = 0;
    for round in 0..6u16 {
        let k = format!("k{round}");
        assert!(m.insert(k.clone(), round));
        stored += 1;
        assert!(m.remove(&k));
    }
    assert_eq!(stored, 6);
    assert!(!m.insert(key("late"), 1));
    assert_eq!(m.get_key(0), Some(&key("k0")));
    assert_eq!(m.get_key(5), Some(&key("k5")));
    assert_eq!(m.get_key(6), None);
}

#[test]
fn fetch_update_applies_or_declines() {
    let mut m = HashMap::with_capacity(16);
    assert!(m.insert(key("x"), 10));
    assert_eq!(m.fetch_update(&key("x"), |v| Some(v * 3)), Some(10));
    assert_eq!(m.get(&key("x")), Some(30));
    assert_eq!(m.fetch_update(&key("x"), |_| None), None);
    assert_eq!(m.get(&key("x")), Some(30));
    assert_eq!(m.fetch_update(&key("y"), |v| Some(v)), None);
}

#[test]
fn keys_are_kept_in_insertion_order() {
    let mut m = HashMap::with_capacity(16);
    assert!(m.insert(key("first"), 1));
    assert!(m.insert(key("second"), 2));
    assert!(!m.insert(key("first"), 3));
    assert_eq!(m.get_key(0), Some(&key("first")));
    assert_eq!(m.get_key(1), Some(&key("second")));
    assert_eq!(m.get_key(2), None);
}

#[test]
fn distinct_keys_round_trip() {
    let mut m = HashMap::with_capacity(300);
    for i in 0..300u16 {
        assert!(m.insert(format!("key-{i}"), i.wrapping_mul(7)));
    }
    for i in 0..300u16 {
        assert_eq!(m.get(&format!("key-{i}")), Some(i.wrapping_mul(7)));
    }
    assert_eq!(m.get(&key("key-300")), None);
}
