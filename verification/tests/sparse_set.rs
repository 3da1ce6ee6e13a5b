use lau_collections::sparse_set::SparseSet;

#[test]
fn sparse_set_new_is_empty() {
    let s: SparseSet<f64> = SparseSet::new();
    assert!(s.is_empty());
    assert_eq!(s.len(), 0);
}

#[test]
fn sparse_set_insert_and_get() {
    let mut s = SparseSet::new();
    s.insert(42, 99.5);
    assert!(s.contains(42));
    assert_eq!(s.get(42), Some(99.5));
    assert_eq!(s.len(), 1);
}

#[test]
fn sparse_set_overwrite() {
    let mut s = SparseSet::new();
    s.insert(10, 1.0);
    s.insert(10, 2.0);
    assert_eq!(s.get(10), Some(2.0));
    assert_eq!(s.len(), 1);
}

#[test]
fn sparse_set_remove() {
    let mut s = SparseSet::new();
    s.insert(0, 1.0);
    s.insert(100, 2.0);
    assert!(s.remove(0));
    assert!(!s.contains(0));
    assert!(s.contains(100));
    assert_eq!(s.len(), 1);
    assert!(!s.remove(0));
}

#[test]
fn sparse_set_remove_nonexistent() {
    let mut s: SparseSet<f64> = SparseSet::new();
    assert!(!s.remove(999));
}

#[test]
fn sparse_set_get_mut() {
    let mut s = SparseSet::new();
    s.insert(7, 1.0);
    *s.get_mut(7).unwrap() = 99.0;
    assert_eq!(s.get(7), Some(99.0));
}

#[test]
fn sparse_set_get_nonexistent() {
    let s: SparseSet<f64> = SparseSet::new();
    assert_eq!(s.get(0), None);
}

#[test]
fn sparse_set_get_mut_nonexistent() {
    let mut s: SparseSet<f64> = SparseSet::new();
    assert!(s.get_mut(0).is_none());
}

#[test]
fn sparse_set_iter() {
    let mut s = SparseSet::new();
    s.insert(0, 10.0);
    s.insert(1, 20.0);
    s.insert(2, 30.0);
    let mut pairs: Vec<_> = s.iter().into_iter().collect();
    pairs.sort_by_key(|&(i, _)| i);
    assert_eq!(pairs, vec![(0, 10.0), (1, 20.0), (2, 30.0)]);
}

#[test]
fn sparse_set_clear() {
    let mut s = SparseSet::new();
    s.insert(5, 1.0);
    s.insert(10, 2.0);
    s.clear();
    assert!(s.is_empty());
    assert!(!s.contains(5));
    assert!(!s.contains(10));
}

#[test]
fn sparse_set_swap_removes_dense_correctly() {
    let mut s = SparseSet::new();
    s.insert(0, 1.0);
    s.insert(1, 2.0);
    s.insert(2, 3.0);
    s.remove(0);
    let mut items: Vec<_> = s.iter().into_iter().collect();
    items.sort_by_key(|&(i, _)| i);
    assert_eq!(items.len(), 2);
    assert!(items.contains(&(1, 2.0)));
    assert!(items.contains(&(2, 3.0)));
}

#[test]
fn sparse_set_read_after_write_keeps_other_keys() {
    let mut s = SparseSet::new();
    s.insert(3, 30u64);
    s.insert(7, 70u64);
    s.insert(3, 31u64);
    assert_eq!(s.get(3), Some(31));
    assert_eq!(s.get(7), Some(70));
    assert_eq!(s.len(), 2);
}

#[test]
fn sparse_set_remove_moves_last_entry_into_hole() {
    let mut s = SparseSet::new();
    s.insert(4, 40u64);
    s.insert(5, 50u64);
    s.insert(6, 60u64);
    assert!(s.remove(4));
    assert_eq!(s.iter(), vec![(6, 60), (5, 50)]);
    assert_eq!(s.len(), 2);
    assert!(s.remove(6));
    assert_eq!(s.iter(), vec![(5, 50)]);
}

#[test]
fn sparse_set_remove_last_entry() {
    let mut s = SparseSet::new();
    s.insert(1, 1u8);
    s.insert(2, 2u8);
    assert!(s.remove(2));
    assert_eq!(s.iter(), vec![(1, 1)]);
    assert!(!s.contains(2));
}

#[test]
fn sparse_set_insert_after_clear() {
    let mut s = SparseSet::new();
    s.insert(9, 1i32);
    s.clear();
    assert_eq!(s.get(9), None);
    s.insert(9, 2);
    assert_eq!(s.get(9), Some(2));
    assert_eq!(s.len(), 1);
}

#[test]
fn sparse_set_remove_beyond_sparse_range() {
    let mut s = SparseSet::new();
    s.insert(2, 'a');
    assert!(!s.remove(1000));
    assert!(!s.remove(1));
    assert_eq!(s.len(), 1);
}

#[test]
fn sparse_set_default_is_empty() {
    let s: SparseSet<u32> = SparseSet::default();
    assert!(s.is_empty());
    assert!(s.iter().is_empty());
}

#[test]
fn sparse_set_parts_round_trip() {
    let mut s = SparseSet::new();
    s.insert(3, 1.5);
    s.insert(0, 2.5);
    let (dense, sparse, values) = s.parts();
    assert_eq!(dense, &vec![3, 0]);
    assert_eq!(sparse, &vec![Some(1), None, None, Some(0)]);
    assert_eq!(values, &vec![1.5, 2.5]);
    let back = SparseSet::from_parts(dense.clone(), sparse.clone(), values.clone()).unwrap();
    assert_eq!(back.get(3), Some(1.5));
    assert_eq!(back.get(0), Some(2.5));
    assert_eq!(back.len(), 2);
}

#[test]
fn sparse_set_from_parts_rejects_mismatch() {
    assert!(SparseSet::from_parts(vec![0], vec![Some(0)], vec![1u8, 2]).is_none());
    assert!(SparseSet::from_parts(vec![1], vec![Some(0)], vec![1u8]).is_none());
    assert!(SparseSet::from_parts(vec![0], vec![Some(0), Some(0)], vec![1u8]).is_none());
    assert!(SparseSet::from_parts(vec![0], vec![None], vec![1u8]).is_none());
    assert!(SparseSet::from_parts(Vec::<u32>::new(), vec![None, None], Vec::<u8>::new()).is_some());
}

#[test]
fn sparse_set_sparse_index_after_remove_and_clear() {
    let mut s = SparseSet::new();
    s.insert(1, 10u8);
    s.insert(4, 40u8);
    s.insert(4, 41u8);
    assert_eq!(s.parts().1, &vec![None, Some(0), None, None, Some(1)]);
    assert!(s.remove(1));
    assert_eq!(s.parts().1, &vec![None, None, None, None, Some(0)]);
    s.insert(2, 20u8);
    s.clear();
    assert_eq!(s.parts().1, &vec![None, None, None, None, None]);
}
