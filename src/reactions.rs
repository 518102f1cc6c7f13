//! Which reactions a mixture can undergo.
//!
//! The caller walks the reaction set from the highest priority down and
//! tests each reaction's precondition against the mixture; what is decided
//! here is which identifiers come back and in what order.
use vstd::prelude::*;

verus! {

/// The identifiers of the entries whose precondition holds, in their order.
pub open spec fn reactable_ids(checked: Seq<(u64, bool)>) -> Seq<u64>
    decreases checked.len(),
{
    if checked.len() == 0 {
        Seq::empty()
    } else {
        let rest = reactable_ids(checked.drop_last());
        if checked.last().1 {
            rest.push(checked.last().0)
        } else {
            rest
        }
    }
}

/// Whether the precondition of some entry holds.
pub open spec fn any_reactable(checked: Seq<(u64, bool)>) -> bool {
    exists|i: int| 0 <= i < checked.len() && #[trigger] checked[i].1
}

/// Whether any reaction can take place: `checked` holds each reaction's
/// identifier and whether its precondition holds, highest priority first.
pub fn can_react_with_reactions(checked: &Vec<(u64, bool)>) -> (r: bool)
    ensures
        r == any_reactable(checked@),
{
    let mut i: usize = 0;
    while i < checked.len()
        invariant
            0 <= i <= checked@.len(),
            forall|j: int| 0 <= j < i ==> !(#[trigger] checked@[j]).1,
        decreases checked@.len() - i,
    {
        if checked[i].1 {
            return true;
        }
        i = i + 1;
    }
    false
}

/// The identifiers of the reactions whose precondition holds, in the order of
/// `checked`: highest priority first.
pub fn all_reactable_with_slice(checked: &Vec<(u64, bool)>) -> (r: Vec<u64>)
    ensures
        r@ == reactable_ids(checked@),
{
    let mut r: Vec<u64> = Vec::new();
    let mut i: usize = 0;
    while i < checked.len()
        invariant
            0 <= i <= checked@.len(),
            r@ == reactable_ids(checked@.subrange(0, i as int)),
        decreases checked@.len() - i,
    {
        proof {
            assert(checked@.subrange(0, i as int + 1).drop_last() =~= checked@.subrange(0, i as int));
        }
        if checked[i].1 {
            r.push(checked[i].0);
        }
        i = i + 1;
    }
    proof {
        assert(checked@.subrange(0, i as int) =~= checked@);
    }
    r
}

/// Some reaction can take place exactly when the list of reactions to run is
/// not empty.
pub proof fn lemma_can_react_iff_reactable(checked: Seq<(u64, bool)>)
    ensures
        any_reactable(checked) <==> reactable_ids(checked).len() > 0,
    decreases checked.len(),
{
    if checked.len() > 0 {
        let p = checked.drop_last();
        lemma_can_react_iff_reactable(p);
        if any_reactable(p) {
            let i = choose|i: int| 0 <= i < p.len() && #[trigger] p[i].1;
            assert(checked[i].1);
        }
        if any_reactable(checked) && !checked.last().1 {
            let i = choose|i: int| 0 <= i < checked.len() && #[trigger] checked[i].1;
            assert(p[i].1);
        }
        if checked.last().1 {
            assert(checked[checked.len() - 1].1);
        }
    }
}

/// The result flag with which a reaction asks that no further reaction run
/// on the mixture in this pass.
pub const STOP_REACTIONS: i32 = 2;

/// One step of running the reactions of a mixture in order: folds the flags
/// that a reaction returned into the flags so far, and says whether to stop
/// before the next reaction.
pub fn fold_reaction_result(flags: i32, result: i32) -> (r: (i32, bool))
    ensures
        r.0 == flags | result,
        r.1 == (r.0 & STOP_REACTIONS == STOP_REACTIONS),
{
    let combined = flags | result;
    (combined, combined & STOP_REACTIONS == STOP_REACTIONS)
}

} // verus!
