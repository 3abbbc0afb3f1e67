use blips::store::StableVec;

#[test]
fn new_store_is_empty() {
    let store: StableVec<u32> = StableVec::new();
    assert_eq!(store.len(), 0);
    assert_eq!(store.slot_count(), 0);
    assert_eq!(store.get(0), None);
    let store: StableVec<u32> = StableVec::with_capacity(16);
    assert_eq!(store.len(), 0);
    assert_eq!(store.slot_count(), 0);
}

#[test]
fn push_gives_consecutive_handles() {
    let mut store = StableVec::new();
    assert_eq!(store.push(10u32), 0);
    assert_eq!(store.push(20), 1);
    assert_eq!(store.push(30), 2);
    assert_eq!(store.len(), 3);
    assert_eq!(store.get(0), Some(&10));
    assert_eq!(store.get(1), Some(&20));
    assert_eq!(store.get(2), Some(&30));
    assert_eq!(store.get(3), None);
}

#[test]
fn retain_keeps_handles_stable() {
    let mut store = StableVec::new();
    for v in [5i32, -1, 7, 0, 9] {
        store.push(v);
    }
    store.retain(|v| *v > 0);
    assert_eq!(store.len(), 3);
    assert_eq!(store.slot_count(), 5);
    assert_eq!(store.get(0), Some(&5));
    assert_eq!(store.get(1), None);
    assert_eq!(store.get(2), Some(&7));
    assert_eq!(store.get(3), None);
    assert_eq!(store.get(4), Some(&9));
    assert_eq!(store.live_handles(), vec![0, 2, 4]);
    assert_eq!(store.inner(), &vec![Some(5), None, Some(7), None, Some(9)]);
}

#[test]
fn retain_everything_and_nothing() {
    let mut store = StableVec::from_inner(vec![Some(1u8), None, Some(3)]);
    store.retain(|_| true);
    assert_eq!(store.inner(), &vec![Some(1), None, Some(3)]);
    store.retain(|_| false);
    assert_eq!(store.inner(), &vec![None, None, None]);
    assert_eq!(store.len(), 0);
    assert_eq!(store.live_handles(), Vec::<usize>::new());
}

#[test]
fn push_after_retain_uses_a_fresh_slot() {
    let mut store = StableVec::from_inner(vec![Some(1u8), Some(2)]);
    store.retain(|v| *v != 1);
    assert_eq!(store.push(9), 2);
    assert_eq!(store.inner(), &vec![None, Some(2), Some(9)]);
}

#[test]
fn extend_appends_in_order() {
    let mut store = StableVec::from_inner(vec![Some('a'), None]);
    store.extend(vec!['x', 'y', 'z']);
    assert_eq!(
        store.into_inner(),
        vec![Some('a'), None, Some('x'), Some('y'), Some('z')]
    );
}

#[test]
fn extend_with_nothing_changes_nothing() {
    let mut store = StableVec::from_inner(vec![Some(4u64)]);
    store.extend(Vec::new());
    assert_eq!(store.into_inner(), vec![Some(4)]);
}

#[test]
fn put_changes_one_slot_only() {
    let mut store = StableVec::from_inner(vec![Some(1u32), Some(2), None, Some(4)]);
    let untouched = store.clone();
    assert!(store.put(1, 20));
    for j in [0usize, 2, 3] {
        assert_eq!(store.get(j), untouched.get(j));
    }
    assert_eq!(store.get(1), Some(&20));
    assert_eq!(store.slot_count(), 4);
}

#[test]
fn put_on_a_dead_or_missing_handle_does_nothing() {
    let mut store = StableVec::from_inner(vec![Some(1u32), None]);
    let before = store.clone();
    assert!(!store.put(1, 7));
    assert_eq!(store, before);
    assert!(!store.put(2, 7));
    assert_eq!(store, before);
}

#[test]
fn len_counts_live_slots_only() {
    let store = StableVec::from_inner(vec![None, Some(1u8), None, Some(2), Some(3), None]);
    assert_eq!(store.len(), 3);
    assert_eq!(store.slot_count(), 6);
    assert_eq!(store.live_handles(), vec![1, 3, 4]);
}
