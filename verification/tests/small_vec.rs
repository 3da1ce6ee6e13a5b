use lau_collections::small_vec::SmallVec;

#[test]
fn smallvec_new_is_inline_and_empty() {
    let sv: SmallVec<i32, 4> = SmallVec::new();
    assert!(sv.is_inline());
    assert!(sv.is_empty());
    assert_eq!(sv.len(), 0);
}

#[test]
fn smallvec_push_inline() {
    let mut sv: SmallVec<i32, 4> = SmallVec::new();
    sv.push(10);
    sv.push(20);
    assert!(sv.is_inline());
    assert_eq!(sv.len(), 2);
    assert_eq!(sv[0], 10);
    assert_eq!(sv[1], 20);
}

#[test]
fn smallvec_pop() {
    let mut sv: SmallVec<i32, 3> = SmallVec::new();
    sv.push(1);
    sv.push(2);
    sv.push(3);
    assert_eq!(sv.pop(), Some(3));
    assert_eq!(sv.len(), 2);
    assert_eq!(sv.pop(), Some(2));
    assert_eq!(sv.pop(), Some(1));
    assert_eq!(sv.pop(), None);
}

#[test]
fn smallvec_push_spills() {
    let mut sv: SmallVec<i32, 2> = SmallVec::new();
    sv.push(1);
    sv.push(2);
    assert!(sv.is_inline());
    sv.push(3);
    assert!(!sv.is_inline());
    assert_eq!(sv.len(), 3);
    assert_eq!(sv[0], 1);
    assert_eq!(sv[1], 2);
    assert_eq!(sv[2], 3);
}

#[test]
fn smallvec_get_and_get_mut() {
    let mut sv: SmallVec<i32, 4> = SmallVec::new();
    sv.push(10);
    sv.push(20);
    assert_eq!(sv.get(0), Some(&10));
    assert_eq!(sv.get(5), None);
    *sv.get_mut(0).unwrap() = 99;
    assert_eq!(sv[0], 99);
}

#[test]
fn smallvec_index_trait() {
    let mut sv: SmallVec<i32, 4> = SmallVec::new();
    sv.push(42);
    assert_eq!(sv[0], 42);
}

#[test]
fn smallvec_default() {
    let sv: SmallVec<u32, 8> = SmallVec::default();
    assert!(sv.is_empty());
}

#[test]
fn smallvec_spilled_stays_spilled_after_pop() {
    let mut sv: SmallVec<u8, 1> = SmallVec::new();
    sv.push(1);
    assert!(sv.is_inline());
    sv.push(2);
    assert!(!sv.is_inline());
    assert_eq!(sv.pop(), Some(2));
    assert_eq!(sv.pop(), Some(1));
    assert!(sv.is_empty());
    assert!(!sv.is_inline());
    sv.push(3);
    assert_eq!(sv.get(0), Some(&3));
}

#[test]
fn smallvec_pop_after_push_restores() {
    let mut sv: SmallVec<String, 2> = SmallVec::new();
    sv.push("a".to_string());
    sv.push("b".to_string());
    sv.push("c".to_string());
    assert_eq!(sv.pop(), Some("c".to_string()));
    assert_eq!(sv.len(), 2);
    assert_eq!(sv[1], "b");
    assert!(sv.get_mut(2).is_none());
    *sv.get_mut(1).unwrap() = "z".to_string();
    assert_eq!(sv.get(1).map(|s| s.as_str()), Some("z"));
}
