use lau_collections::free_list::{FreeList, FreeSlot};

#[test]
fn freelist_alloc_and_get() {
    let mut fl = FreeList::new();
    let (idx, gen) = fl.allocate(42);
    assert_eq!(fl.get(idx, gen), Some(42));
    assert!(fl.is_occupied(idx));
    assert_eq!(fl.occupied_count(), 1);
}

#[test]
fn freelist_dealloc_and_reuse() {
    let mut fl = FreeList::new();
    let (idx, gen) = fl.allocate(42);
    assert!(fl.dealloc(idx, gen));
    assert!(!fl.is_occupied(idx));
    assert_eq!(fl.occupied_count(), 0);
    let (idx2, gen2) = fl.allocate(99);
    assert_eq!(idx2, idx);
    assert_eq!(gen2, gen + 1);
    assert_eq!(fl.get(idx2, gen2), Some(99));
    assert_eq!(fl.occupied_count(), 1);
}

#[test]
fn freelist_dealloc_wrong_generation() {
    let mut fl = FreeList::new();
    let (idx, _gen) = fl.allocate(42);
    assert!(!fl.dealloc(idx, 999));
    assert!(fl.is_occupied(idx));
}

#[test]
fn freelist_out_of_bounds() {
    let mut fl: FreeList = FreeList::new();
    assert!(!fl.is_occupied(0));
    assert!(!fl.dealloc(0, 0));
    assert_eq!(fl.get(0, 0), None);
}

#[test]
fn freelist_reuse_order_is_last_freed_first() {
    let mut fl = FreeList::new();
    let a = fl.allocate(1);
    let b = fl.allocate(2);
    let c = fl.allocate(3);
    assert_eq!((a, b, c), ((0, 0), (1, 0), (2, 0)));
    assert!(fl.dealloc(0, 0));
    assert!(fl.dealloc(2, 0));
    assert_eq!(fl.occupied_count(), 1);
    assert_eq!(fl.allocate(30), (2, 1));
    assert_eq!(fl.allocate(10), (0, 1));
    assert_eq!(fl.allocate(40), (3, 0));
    assert_eq!(fl.occupied_count(), 4);
}

#[test]
fn freelist_stale_handle_refused() {
    let mut fl = FreeList::new();
    let (idx, gen) = fl.allocate(5);
    assert!(fl.dealloc(idx, gen));
    assert!(!fl.dealloc(idx, gen));
    assert_eq!(fl.get(idx, gen), None);
    let (idx2, gen2) = fl.allocate(6);
    assert_eq!(idx2, idx);
    assert!(!fl.dealloc(idx, gen));
    assert!(fl.dealloc(idx2, gen2));
}

#[test]
fn freelist_get_ignores_generation() {
    let mut fl = FreeList::new();
    let (idx, gen) = fl.allocate(77);
    assert_eq!(fl.get(idx, gen + 5), Some(77));
}

#[test]
fn freelist_default_is_empty() {
    let fl = FreeList::default();
    assert_eq!(fl.occupied_count(), 0);
    assert!(!fl.is_occupied(0));
}

#[test]
fn freelist_parts_round_trip() {
    let mut fl = FreeList::new();
    fl.allocate(10);
    fl.allocate(11);
    fl.allocate(12);
    fl.dealloc(0, 0);
    fl.dealloc(2, 0);
    let (slots, first_free) = fl.parts();
    assert_eq!(first_free, Some(2));
    assert_eq!(slots.len(), 3);
    let mut back = FreeList::from_parts(slots.clone(), first_free).unwrap();
    assert_eq!(back.get(1, 0), Some(11));
    assert_eq!(back.allocate(5), (2, 1));
    assert_eq!(back.allocate(6), (0, 1));
}

#[test]
fn freelist_from_parts_rejects_broken_chains() {
    // a free slot that links to itself
    let looped = vec![FreeSlot::Free { next: Some(0), generation: 0 }];
    assert!(FreeList::from_parts(looped, Some(0)).is_none());
    // the head names a live slot
    let live = vec![FreeSlot::Occupied(1, 0)];
    assert!(FreeList::from_parts(live, Some(0)).is_none());
    // the head is out of range
    assert!(FreeList::from_parts(vec![], Some(3)).is_none());
    // a free slot that the chain never reaches
    let stray = vec![FreeSlot::Free { next: None, generation: 0 }, FreeSlot::Occupied(1, 0)];
    assert!(FreeList::from_parts(stray, None).is_none());
    let good = vec![
        FreeSlot::Free { next: None, generation: 4 },
        FreeSlot::Free { next: Some(0), generation: 1 },
    ];
    let mut fl = FreeList::from_parts(good, Some(1)).unwrap();
    assert_eq!(fl.allocate(8), (1, 1));
    assert_eq!(fl.allocate(9), (0, 4));
    assert_eq!(fl.allocate(7), (2, 0));
}

#[test]
fn freelist_allocate_never_overwrites_live_values() {
    let mut fl = FreeList::new();
    let a = fl.allocate(1);
    let b = fl.allocate(2);
    assert!(fl.dealloc(a.0, a.1));
    let c = fl.allocate(3);
    let d = fl.allocate(4);
    assert_eq!(fl.get(b.0, b.1), Some(2));
    assert_eq!(fl.get(c.0, c.1), Some(3));
    assert_eq!(fl.get(d.0, d.1), Some(4));
    assert!(c.0 != b.0 && d.0 != b.0 && c.0 != d.0);
    assert_eq!(fl.occupied_count(), 3);
}
