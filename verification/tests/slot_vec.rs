use lau_collections::slot_vec::SlotVec;

#[test]
fn slotvec_new_is_empty() {
    let sv: SlotVec<i32> = SlotVec::new();
    assert!(sv.is_empty());
    assert_eq!(sv.len(), 0);
    assert_eq!(sv.capacity(), 0);
}

#[test]
fn slotvec_push_and_get() {
    let mut sv = SlotVec::new();
    let i0 = sv.push(10);
    let i1 = sv.push(20);
    assert_eq!(sv.get(i0), Some(&10));
    assert_eq!(sv.get(i1), Some(&20));
    assert_eq!(sv.len(), 2);
}

#[test]
fn slotvec_remove_and_reuse() {
    let mut sv = SlotVec::new();
    let _i0 = sv.push(1);
    let i1 = sv.push(2);
    let _i2 = sv.push(3);
    assert_eq!(sv.remove(i1), Some(2));
    assert_eq!(sv.len(), 2);
    let i3 = sv.push(4);
    assert_eq!(i3, i1);
    assert_eq!(sv.get(i3), Some(&4));
    assert_eq!(sv.len(), 3);
}

#[test]
fn slotvec_get_mut() {
    let mut sv = SlotVec::new();
    let idx = sv.push(42);
    *sv.get_mut(idx).unwrap() = 99;
    assert_eq!(sv.get(idx), Some(&99));
}

#[test]
fn slotvec_remove_nonexistent() {
    let mut sv: SlotVec<i32> = SlotVec::new();
    assert_eq!(sv.remove(0), None);
    assert_eq!(sv.remove(100), None);
}

#[test]
fn slotvec_remove_twice_returns_none() {
    let mut sv = SlotVec::new();
    let idx = sv.push(10);
    assert_eq!(sv.remove(idx), Some(10));
    assert_eq!(sv.remove(idx), None);
    assert!(sv.is_empty());
}

#[test]
fn slotvec_iter() {
    let mut sv = SlotVec::new();
    sv.push(1);
    sv.push(2);
    sv.push(3);
    let collected: Vec<_> = sv.iter().into_iter().map(|(_, v)| *v).collect();
    assert_eq!(collected, vec![1, 2, 3]);
}

#[test]
fn slotvec_iter_skips_removed() {
    let mut sv = SlotVec::new();
    sv.push('a');
    let idx = sv.push('b');
    sv.push('c');
    sv.remove(idx);
    let collected: Vec<_> = sv.iter().into_iter().map(|(_, v)| *v).collect();
    assert_eq!(collected, vec!['a', 'c']);
}

#[test]
fn slotvec_reuse_is_last_freed_first() {
    let mut sv = SlotVec::new();
    for v in 0..5 {
        sv.push(v);
    }
    assert_eq!(sv.remove(1), Some(1));
    assert_eq!(sv.remove(3), Some(3));
    assert_eq!(sv.push(30), 3);
    assert_eq!(sv.push(10), 1);
    assert_eq!(sv.push(50), 5);
    assert_eq!(sv.capacity(), 6);
    assert_eq!(sv.len(), 6);
}

#[test]
fn slotvec_iter_reports_indices() {
    let mut sv = SlotVec::new();
    sv.push("x".to_string());
    sv.push("y".to_string());
    sv.push("z".to_string());
    sv.remove(0);
    let pairs: Vec<(usize, String)> = sv.iter().into_iter().map(|(i, v)| (i, v.clone())).collect();
    assert_eq!(pairs, vec![(1, "y".to_string()), (2, "z".to_string())]);
}

#[test]
fn slotvec_get_out_of_range_and_removed() {
    let mut sv = SlotVec::new();
    let i = sv.push(5u8);
    assert_eq!(sv.get(7), None);
    sv.remove(i);
    assert_eq!(sv.get(i), None);
    assert!(sv.get_mut(i).is_none());
    assert_eq!(sv.capacity(), 1);
}

#[test]
fn slotvec_default_is_empty() {
    let sv: SlotVec<u64> = SlotVec::default();
    assert!(sv.is_empty());
    assert_eq!(sv.capacity(), 0);
}

#[test]
fn slotvec_parts_round_trip() {
    let mut sv = SlotVec::new();
    sv.push(1u32);
    sv.push(2);
    sv.push(3);
    sv.remove(1);
    let (items, free, len) = sv.parts();
    assert_eq!(items, &vec![Some(1), None, Some(3)]);
    assert_eq!(free, &vec![1]);
    assert_eq!(len, 2);
    let mut back = SlotVec::from_parts(items.clone(), free.clone(), len).unwrap();
    assert_eq!(back.push(9), 1);
    assert_eq!(back.len(), 3);
}

#[test]
fn slotvec_from_parts_rejects_bad_parts() {
    assert!(SlotVec::from_parts(vec![Some(1u8), None], vec![1], 2).is_none());
    assert!(SlotVec::from_parts(vec![Some(1u8), None], vec![], 1).is_none());
    assert!(SlotVec::from_parts(vec![Some(1u8), None], vec![0], 1).is_none());
    assert!(SlotVec::from_parts(vec![None::<u8>, None], vec![1, 1], 0).is_none());
    assert!(SlotVec::from_parts(vec![Some(1u8), None], vec![5], 1).is_none());
    assert!(SlotVec::from_parts(vec![None::<u8>, Some(2)], vec![0], 1).is_some());
}

#[test]
fn slotvec_len_matches_iter_count() {
    let mut sv = SlotVec::new();
    for v in 0..6u32 {
        sv.push(v);
    }
    sv.remove(2);
    sv.remove(4);
    assert_eq!(sv.len(), sv.iter().len());
    assert_eq!(sv.len(), 4);
    sv.push(9);
    assert_eq!(sv.len(), sv.iter().len());
    assert_eq!(sv.capacity(), 6);
}
