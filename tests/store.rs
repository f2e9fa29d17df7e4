use folklore::store::{HashState, HashStore};

fn s(v: &str) -> String {
    v.to_string()
}

#[test]
fn store_insert_find_get() {
    let mut store = HashStore::with_capacity(16);
    let a = store.insert::<true>(s("alpha")).unwrap();
    let b = store.insert::<true>(s("beta")).unwrap();
    assert_ne!(a, b);
    assert_eq!(store.find(&s("alpha")), Some(a));
    assert_eq!(store.find(&s("beta")), Some(b));
    assert_eq!(store.find(&s("gamma")), None);
    assert_eq!(store.get(a), Some(s("alpha")));
    assert_eq!(store.get(b), Some(s("beta")));
}

#[test]
fn store_rejects_duplicates_when_checking() {
    let mut store = HashStore::with_capacity(16);
    assert!(store.insert::<true>(s("alpha")).is_some());
    assert_eq!(store.insert::<true>(s("alpha")), None);
    assert_eq!(store.insert::<false>(s("alpha")), None);
}

#[test]
fn store_remove_frees_the_slot() {
    let mut store = HashStore::with_capacity(8);
    let a = store.insert::<true>(s("alpha")).unwrap();
    assert!(store.remove(a));
    assert!(!store.remove(a));
    assert_eq!(store.get(a), None);
    assert_eq!(store.find(&s("alpha")), None);
    let again = store.insert::<true>(s("alpha")).unwrap();
    assert_eq!(store.get(again), Some(s("alpha")));
}

#[test]
fn store_refuses_when_every_slot_is_taken() {
    // Capacity four gives three slots.
    let mut store = HashStore::with_capacity(4);
    assert!(store.insert::<true>(s("a")).is_some());
    assert!(store.insert::<true>(s("b")).is_some());
    assert!(store.insert::<true>(s("c")).is_some());
    assert_eq!(store.insert::<true>(s("d")), None);
    assert_eq!(store.get(3), None);
    assert_eq!(store.find(&s("c")).is_some(), true);
}

#[test]
fn store_values_eq() {
    let mut store = HashStore::with_capacity(8);
    let a = store.insert::<true>(s("same")).unwrap();
    let b = store.insert::<true>(s("other")).unwrap();
    assert!(store.values_eq(a, a));
    assert!(!store.values_eq(a, b));
    assert!(!store.values_eq(a, 100));
    assert!(store.remove(b));
    assert!(!store.values_eq(b, b));
}

#[test]
fn store_state_words() {
    assert_eq!(HashState::Empty.to_word(), 0);
    assert_eq!(HashState::Deleted.to_word(), 1);
    assert_eq!(HashState::Occupied(5).to_word(), 0x0000_0005_0000_0003);
    assert!(HashState::from_word(0x0000_0007_0000_0002) == HashState::Inserting(7));
    assert!(HashState::from_word(1) == HashState::Deleted);
}
