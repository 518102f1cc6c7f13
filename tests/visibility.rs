use auxmos::visibility::{vis_hash, vis_hash_words};

#[test]
fn visibility_hash_follows_visible_steps() {
    // nothing visible
    let h0 = vis_hash(&Vec::new());
    // gas 0 visible at step 3
    let h1 = vis_hash(&vec![(0, 3)]);
    assert_ne!(h0, h1);
    // the same picture gives the same digest
    assert_eq!(vis_hash(&vec![(0, 3)]), h1);
    // another step of the same gas gives another digest
    assert_ne!(vis_hash(&vec![(0, 4)]), h1);
    assert_ne!(vis_hash(&vec![(1, 3)]), h1);
}

#[test]
fn visibility_hash_words_interleave_gas_and_step() {
    assert_eq!(vis_hash_words(&vec![(0, 3), (2, 20)]), vec![0, 3, 2, 20]);
    assert!(vis_hash_words(&Vec::new()).is_empty());
}
