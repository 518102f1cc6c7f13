use auxmos::reactions::{
    all_reactable_with_slice, can_react_with_reactions, fold_reaction_result, STOP_REACTIONS,
};

#[test]
fn reaction_gating_single_reaction() {
    // one reaction, id 77: its precondition holds
    let met = vec![(77u64, true)];
    assert!(can_react_with_reactions(&met));
    assert_eq!(all_reactable_with_slice(&met), vec![77]);
    // the same reaction when its precondition fails
    let unmet = vec![(77u64, false)];
    assert!(!can_react_with_reactions(&unmet));
    assert!(all_reactable_with_slice(&unmet).is_empty());
}

#[test]
fn reactable_keeps_priority_order() {
    let checked = vec![(9u64, true), (4, false), (7, true), (1, true)];
    assert_eq!(all_reactable_with_slice(&checked), vec![9, 7, 1]);
    assert!(can_react_with_reactions(&checked));
}

#[test]
fn no_reactions_means_nothing_to_run() {
    let none: Vec<(u64, bool)> = Vec::new();
    assert!(!can_react_with_reactions(&none));
    assert!(all_reactable_with_slice(&none).is_empty());
}

#[test]
fn reaction_flags_fold_and_stop() {
    assert_eq!(fold_reaction_result(0, 1), (1, false));
    assert_eq!(fold_reaction_result(1, 0), (1, false));
    assert_eq!(fold_reaction_result(1, STOP_REACTIONS), (3, true));
    assert_eq!(fold_reaction_result(STOP_REACTIONS, 0), (2, true));
}
