use folklore::array::ConcurrentArena;
use folklore::cell::Entry;
use folklore::util::{get_bucket_index, get_cell_index};
use folklore::ConcurrentArray;

#[test]
fn array_push_get_remove() {
    let mut a: ConcurrentArray<u32> = ConcurrentArray::new(2);
    assert_eq!(a.push(7), Some(0));
    assert_eq!(a.push(8), Some(1));
    assert_eq!(a.push(9), None);
    assert_eq!(a.get(0), Some(&7));
    assert_eq!(a.get(1), Some(&8));
    assert_eq!(a.get(2), None);
    assert!(!a.remove(0));
    assert!(a.remove(1));
    assert_eq!(a.get(1), None);
    assert_eq!(a.len(), 1);
    assert!(!a.remove(5));
}

#[test]
fn arena_only_hands_back_the_last_slot() {
    let mut arena = ConcurrentArena::new(3);
    assert_eq!(arena.elem_count(), 3);
    assert_eq!(arena.push(), Some(0));
    assert_eq!(arena.push(), Some(1));
    assert!(!arena.try_remove(0));
    assert!(arena.try_remove(1));
    assert_eq!(arena.get(1), None);
    assert_eq!(arena.get(0), Some(0));
    assert_eq!(arena.push(), Some(1));
    assert_eq!(arena.push(), Some(2));
    assert_eq!(arena.push(), None);
}

#[test]
fn bucket_and_cell_indices() {
    assert_eq!(get_bucket_index(13, 15), 3);
    assert_eq!(get_cell_index(13), 1);
    assert_eq!(get_bucket_index(29, 15), 3);
    assert_eq!(get_cell_index(7), 3);
    assert_eq!(get_bucket_index(0, 0), 0);
}

#[test]
fn entry_packs_into_one_word() {
    let e = Entry { key_hash: 0xdead_beef, key_offset: 2, value: 42 };
    let w = e.pack();
    assert_eq!(w, 0xdead_beef_0002_002a);
    assert!(Entry::unpack(w) == e);
    assert_eq!(Entry::unpack(0).key_offset, 0);
}
