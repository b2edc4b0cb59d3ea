use sparse_ecs::SparseSet;

#[test]
fn get_after_set_returns_last_value() {
    let mut s: SparseSet<i32> = SparseSet::new();
    s.set(3, 10);
    s.set(3, 11);
    s.set(0, 5);
    assert_eq!(s.get(3), Some(&11));
    assert_eq!(s.get(0), Some(&5));
    assert_eq!(s.len(), 2);
}

#[test]
fn get_on_never_set_index_is_absent() {
    let mut s: SparseSet<i32> = SparseSet::new();
    assert_eq!(s.get(0), None);
    s.set(7, 1);
    assert_eq!(s.get(2), None);
    assert_eq!(s.get(100), None);
    assert!(!s.contains(2));
    assert!(s.contains(7));
}

#[test]
fn get_after_remove_is_absent() {
    let mut s: SparseSet<i32> = SparseSet::new();
    s.set(4, 40);
    assert_eq!(s.remove(4), Some(40));
    assert_eq!(s.get(4), None);
    assert_eq!(s.remove(4), None);
    assert_eq!(s.len(), 0);
}

#[test]
fn swap_remove_keeps_other_entries() {
    let mut s: SparseSet<i32> = SparseSet::new();
    s.set(1, 10);
    s.set(5, 50);
    s.set(2, 20);
    s.set(9, 90);
    assert_eq!(s.len(), 4);
    // index 1 owns the first dense entry, not the last
    assert_eq!(s.remove(1), Some(10));
    assert_eq!(s.len(), 3);
    assert_eq!(s.get(5), Some(&50));
    assert_eq!(s.get(2), Some(&20));
    assert_eq!(s.get(9), Some(&90));
    assert_eq!(s.get(1), None);
    s.set(1, 11);
    assert_eq!(s.get(1), Some(&11));
    assert_eq!(s.get(9), Some(&90));
}

#[test]
fn remove_last_dense_entry() {
    let mut s: SparseSet<i32> = SparseSet::new();
    s.set(0, 1);
    s.set(1, 2);
    assert_eq!(s.remove(1), Some(2));
    assert_eq!(s.get(0), Some(&1));
    assert_eq!(s.len(), 1);
}

#[test]
fn get_mut_writes_in_place() {
    let mut s: SparseSet<i32> = SparseSet::new();
    s.set(2, 7);
    if let Some(v) = s.get_mut(2) {
        *v = 8;
    }
    assert_eq!(s.get(2), Some(&8));
    assert!(s.get_mut(3).is_none());
}

#[test]
fn iter_lists_entries_by_index() {
    let mut s: SparseSet<i32> = SparseSet::new();
    s.set(6, 60);
    s.set(1, 10);
    s.set(3, 30);
    s.remove(3);
    let items = s.iter();
    assert_eq!(items, vec![(1, &10), (6, &60)]);
}

#[test]
fn duplicate_copies_every_entry() {
    let mut s: SparseSet<i32> = SparseSet::new();
    s.set(2, 20);
    s.set(0, 0);
    let mut d = s.duplicate();
    d.set(2, 21);
    assert_eq!(s.get(2), Some(&20));
    assert_eq!(d.get(2), Some(&21));
    assert_eq!(d.get(0), Some(&0));
    assert_eq!(d.len(), 2);
}
