use lau_collections::bit_set::BitSet;

#[test]
fn bitset_new_all_clear() {
    let bs = BitSet::new(100);
    assert_eq!(bs.count(), 0);
    assert!(bs.is_empty());
}

#[test]
fn bitset_set_and_is_set() {
    let mut bs = BitSet::new(64);
    bs.set(0);
    bs.set(63);
    assert!(bs.is_set(0));
    assert!(bs.is_set(63));
    assert!(!bs.is_set(1));
    assert_eq!(bs.count(), 2);
}

#[test]
fn bitset_clear() {
    let mut bs = BitSet::new(64);
    bs.set(10);
    bs.clear(10);
    assert!(!bs.is_set(10));
}

#[test]
fn bitset_toggle() {
    let mut bs = BitSet::new(64);
    assert!(!bs.is_set(5));
    bs.toggle(5);
    assert!(bs.is_set(5));
    bs.toggle(5);
    assert!(!bs.is_set(5));
}

#[test]
fn bitset_count_multiword() {
    let mut bs = BitSet::new(128);
    bs.set(0);
    bs.set(64);
    bs.set(127);
    assert_eq!(bs.count(), 3);
}

#[test]
fn bitset_union() {
    let mut a = BitSet::new(64);
    let mut b = BitSet::new(64);
    a.set(0);
    b.set(1);
    let u = a.union(&b);
    assert!(u.is_set(0));
    assert!(u.is_set(1));
    assert_eq!(u.count(), 2);
}

#[test]
fn bitset_intersection() {
    let mut a = BitSet::new(64);
    let mut b = BitSet::new(64);
    a.set(0);
    a.set(1);
    b.set(0);
    let i = a.intersection(&b);
    assert!(i.is_set(0));
    assert!(!i.is_set(1));
}

#[test]
fn bitset_difference() {
    let mut a = BitSet::new(64);
    let mut b = BitSet::new(64);
    a.set(0);
    a.set(1);
    b.set(0);
    let d = a.difference(&b);
    assert!(!d.is_set(0));
    assert!(d.is_set(1));
}

#[test]
fn bitset_is_subset() {
    let mut a = BitSet::new(64);
    let mut b = BitSet::new(64);
    a.set(5);
    b.set(5);
    b.set(10);
    assert!(a.is_subset(&b));
    assert!(!b.is_subset(&a));
}

#[test]
fn bitset_equal_sets_are_subsets() {
    let mut a = BitSet::new(64);
    let mut b = BitSet::new(64);
    a.set(3);
    a.set(7);
    b.set(3);
    b.set(7);
    assert!(a.is_subset(&b));
    assert!(b.is_subset(&a));
}

#[test]
fn bitset_iter() {
    let mut bs = BitSet::new(200);
    bs.set(0);
    bs.set(1);
    bs.set(127);
    bs.set(128);
    bs.set(199);
    let indices: Vec<_> = bs.iter();
    assert_eq!(indices, vec![0, 1, 127, 128, 199]);
}

#[test]
fn bitset_iter_empty() {
    let bs = BitSet::new(64);
    let indices: Vec<_> = bs.iter();
    assert!(indices.is_empty());
}

#[test]
fn bitset_size_and_word_boundaries() {
    let mut bs = BitSet::new(65);
    assert_eq!(bs.size(), 65);
    bs.set(64);
    assert!(bs.is_set(64));
    assert!(!bs.is_set(63));
    assert!(!bs.is_empty());
    assert_eq!(bs.iter(), vec![64]);
    bs.clear(64);
    assert!(bs.is_empty());
}

#[test]
fn bitset_zero_size() {
    let bs = BitSet::new(0);
    assert_eq!(bs.size(), 0);
    assert_eq!(bs.count(), 0);
    assert!(bs.is_empty());
    assert!(bs.iter().is_empty());
    assert!(bs.is_subset(&BitSet::new(0)));
}

#[test]
fn bitset_set_operations_across_words() {
    let mut a = BitSet::new(130);
    let mut b = BitSet::new(130);
    for i in [1, 64, 100, 129] {
        a.set(i);
    }
    for i in [64, 65, 129] {
        b.set(i);
    }
    assert_eq!(a.union(&b).iter(), vec![1, 64, 65, 100, 129]);
    assert_eq!(a.intersection(&b).iter(), vec![64, 129]);
    assert_eq!(a.difference(&b).iter(), vec![1, 100]);
    assert_eq!(a.union(&b).count(), 5);
    assert!(a.intersection(&b).is_subset(&a));
    assert!(a.is_subset(&a.union(&b)));
    assert!(!a.is_subset(&b));
}

#[test]
fn bitset_equality_follows_contents() {
    let mut a = BitSet::new(70);
    let mut b = BitSet::new(70);
    assert!(a == b);
    a.set(69);
    assert!(a != b);
    b.toggle(69);
    assert!(a == b);
    assert!(BitSet::new(70) != BitSet::new(71));
}

#[test]
fn bitset_toggle_twice_restores() {
    let mut a = BitSet::new(10);
    a.set(2);
    let before = a.iter();
    a.toggle(7);
    a.toggle(7);
    assert_eq!(a.iter(), before);
    a.toggle(2);
    assert!(a.is_empty());
}

#[test]
fn bitset_parts_round_trip() {
    let mut bs = BitSet::new(70);
    bs.set(0);
    bs.set(69);
    let (bits, size) = bs.parts();
    assert_eq!(bits, &vec![1, 1 << 5]);
    assert_eq!(size, 70);
    let back = BitSet::from_parts(bits.clone(), size).unwrap();
    assert!(back == bs);
    assert_eq!(back.iter(), vec![0, 69]);
}

#[test]
fn bitset_from_parts_rejects_bad_parts() {
    assert!(BitSet::from_parts(vec![0, 0], 64).is_none());
    assert!(BitSet::from_parts(vec![0], 65).is_none());
    assert!(BitSet::from_parts(vec![1 << 6], 6).is_none());
    assert!(BitSet::from_parts(vec![1 << 5], 6).is_some());
    assert!(BitSet::from_parts(vec![u64::MAX], 64).is_some());
    assert!(BitSet::from_parts(vec![], 0).is_some());
}
