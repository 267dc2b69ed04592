use dag_scheduler::ids::IdSet;

#[test]
fn id_set_keeps_ascending_order() {
    let mut s = IdSet::new();
    assert!(s.is_empty());
    assert!(s.insert(5));
    assert!(s.insert(1));
    assert!(s.insert(3));
    assert!(!s.insert(3));
    assert_eq!(s.to_vec(), vec![1, 3, 5]);
    assert!(s.contains(3));
    assert!(!s.contains(4));
    assert!(s.remove(3));
    assert!(!s.remove(3));
    assert_eq!(s.to_vec(), vec![1, 5]);
    assert_eq!(s.len(), 2);
    assert!(!s.is_empty());
}

#[test]
fn id_set_bulk_insert_and_remove() {
    let mut s = IdSet::new();
    s.insert_all(&vec![9, 2, 7, 2]);
    assert_eq!(s.to_vec(), vec![2, 7, 9]);
    s.remove_all(&vec![7, 4]);
    assert_eq!(s.to_vec(), vec![2, 9]);
}

#[test]
fn id_set_holds_extreme_ids() {
    let mut s = IdSet::new();
    assert!(s.insert(usize::MAX));
    assert!(s.insert(0));
    assert_eq!(s.to_vec(), vec![0, usize::MAX]);
    assert!(s.remove(0));
    assert_eq!(s.to_vec(), vec![usize::MAX]);
}
