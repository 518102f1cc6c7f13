use auxmos::arena::Arena;

#[test]
fn allocate_appends_when_nothing_is_free() {
    let mut a: Arena<u32> = Arena::new();
    assert_eq!(a.push_with(10), 0);
    assert_eq!(a.push_with(20), 1);
    assert_eq!(a.push_with(30), 2);
    assert_eq!(a.len(), 3);
    assert_eq!(a.internal_len(), 3);
    assert_eq!(a.get(1), Some(&20));
    assert_eq!(a.get(3), None);
}

#[test]
fn released_slot_is_not_found_until_reallocated() {
    let mut a: Arena<u32> = Arena::with_capacity(4);
    let h = a.push_with(1);
    let other = a.push_with(2);
    assert!(a.contains(h));
    assert!(a.remove(h));
    assert!(!a.contains(h));
    assert_eq!(a.get(h), None);
    assert!(a.remove(other));
    assert!(!a.contains(h));
    // the most recently released slot comes back first
    assert_eq!(a.push_with(3), other);
    assert!(!a.contains(h));
    assert_eq!(a.push_with(4), h);
    assert!(a.contains(h));
    assert_eq!(a.get(h), Some(&4));
    assert_eq!(a.len(), 2);
    assert_eq!(a.internal_len(), 2);
}

#[test]
fn releasing_a_free_or_unknown_slot_changes_nothing() {
    let mut a: Arena<u32> = Arena::new();
    let h = a.push_with(5);
    assert!(a.remove(h));
    assert!(!a.remove(h));
    assert!(!a.remove(17));
    assert_eq!(a.len(), 0);
    assert_eq!(a.internal_len(), 1);
    assert_eq!(a.push_with(6), h);
    assert_eq!(a.internal_len(), 1);
}

#[test]
fn try_push_only_recycles() {
    let mut a: Arena<u32> = Arena::new();
    assert_eq!(a.try_push(9), Err(9));
    assert_eq!(a.internal_len(), 0);
    let h = a.proper_push(1);
    assert_eq!(h, 0);
    assert_eq!(a.try_push(2), Err(2));
    assert!(a.remove(h));
    assert_eq!(a.try_push(3), Ok(h));
    assert_eq!(a.get(h), Some(&3));
}

#[test]
fn proper_push_appends_even_with_free_slots() {
    let mut a: Arena<u32> = Arena::new();
    let h = a.push_with(1);
    assert!(a.remove(h));
    assert_eq!(a.proper_push(2), 1);
    assert_eq!(a.len(), 1);
    // the freed slot is still the next one handed out
    assert_eq!(a.push_with(3), h);
}

#[test]
fn clear_frees_every_slot_in_ascending_order() {
    let mut a: Arena<u32> = Arena::new();
    for v in 0..4u32 {
        a.push_with(v);
    }
    a.remove(2);
    a.clear();
    assert_eq!(a.len(), 0);
    assert_eq!(a.internal_len(), 4);
    for i in 0..4usize {
        assert!(!a.contains(i));
    }
    assert_eq!(a.push_with(10), 0);
    assert_eq!(a.push_with(11), 1);
    assert_eq!(a.push_with(12), 2);
    assert_eq!(a.push_with(13), 3);
    assert_eq!(a.push_with(14), 4);
}

#[test]
fn clear_on_empty_arena() {
    let mut a: Arena<u32> = Arena::new();
    a.clear();
    assert_eq!(a.len(), 0);
    assert_eq!(a.push_with(1), 0);
}

#[test]
fn live_indices_lists_live_slots_in_order() {
    let mut a: Arena<u32> = Arena::new();
    for v in 0..5u32 {
        a.push_with(v);
    }
    a.remove(1);
    a.remove(3);
    assert_eq!(a.live_indices(), vec![0, 2, 4]);
    a.clear();
    assert!(a.live_indices().is_empty());
}
