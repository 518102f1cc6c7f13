use auxmos::access::{
    handle_to_index, index_to_handle, lookup, plan_group, plan_pair, AccessError, PairAccess,
};
use auxmos::arena::Arena;

fn arena_of(n: u32) -> Arena<u32> {
    let mut a = Arena::new();
    for v in 0..n {
        a.push_with(v * 10);
    }
    a
}

#[test]
fn handles_round_trip() {
    assert_eq!(handle_to_index(0), 0);
    assert_eq!(handle_to_index(u32::MAX), u32::MAX as usize);
    assert_eq!(index_to_handle(7), Ok(7));
    assert_eq!(index_to_handle(u32::MAX as usize), Ok(u32::MAX));
}

#[test]
fn handle_overflow_is_reported() {
    if usize::BITS > 32 {
        let big = (u32::MAX as usize) + 1;
        assert_eq!(index_to_handle(big), Err(AccessError::HandleOverflow(big)));
    }
}

#[test]
fn lookup_finds_live_slots_only() {
    let mut a = arena_of(3);
    assert_eq!(lookup(&a, 2), Ok(&20));
    assert_eq!(lookup(&a, 3), Err(AccessError::NotFound(3)));
    a.remove(1);
    assert_eq!(lookup(&a, 1), Err(AccessError::NotFound(1)));
}

#[test]
fn pair_locks_lower_index_first() {
    let a = arena_of(6);
    assert_eq!(
        plan_pair(&a, 5, 2),
        Ok(PairAccess::Ordered { lower: 2, upper: 5, src_is_lower: false })
    );
    assert_eq!(
        plan_pair(&a, 2, 5),
        Ok(PairAccess::Ordered { lower: 2, upper: 5, src_is_lower: true })
    );
}

#[test]
fn pair_on_one_slot_takes_one_lock() {
    let a = arena_of(2);
    assert_eq!(plan_pair(&a, 1, 1), Ok(PairAccess::Same(1)));
}

#[test]
fn pair_reports_the_first_missing_handle() {
    let mut a = arena_of(3);
    a.remove(0);
    assert_eq!(plan_pair(&a, 0, 9), Err(AccessError::NotFound(0)));
    assert_eq!(plan_pair(&a, 2, 9), Err(AccessError::NotFound(9)));
    assert_eq!(plan_pair(&a, 9, 0), Err(AccessError::NotFound(9)));
}

#[test]
fn group_is_sorted_distinct_and_live() {
    let mut a = arena_of(6);
    a.remove(3);
    let handles = vec![5, 1, 3, 5, 0, 42, 1];
    assert_eq!(plan_group(&a, &handles), vec![0, 1, 5]);
    assert!(plan_group(&a, &Vec::new()).is_empty());
}

#[test]
fn group_comes_back_ascending_from_reverse_input() {
    let a = arena_of(5);
    assert_eq!(plan_group(&a, &vec![4, 3, 2, 1, 0, 4]), vec![0, 1, 2, 3, 4]);
}
