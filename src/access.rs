//! Handles and the order in which slots of the arena are taken.
//!
//! The host holds a 32-bit handle for each mixture. Taking one mixture checks
//! that its slot is live; taking two decides, before any lock is taken, in
//! which order the slots are locked: always the lower index first, so that two
//! callers that want the same two slots never wait on each other in a cycle.
use vstd::prelude::*;

use std::collections::BTreeSet;

use vstd::laws_cmp::obeys_cmp;
use vstd::std_specs::btree::{axiom_increasing_seq_meaning, increasing_seq, spec_btree_keys_iter};
use vstd::std_specs::cmp::OrdSpec;
use vstd::std_specs::iter::IteratorSpec;

use crate::arena::Arena;

verus! {

broadcast use vstd::std_specs::btree::group_btree_axioms, vstd::laws_cmp::group_laws_cmp;

/// Why a handle could not be used.
#[derive(Clone, Copy, Debug, PartialEq, Eq, Structural)]
pub enum AccessError {
    /// No live mixture has this index.
    NotFound(usize),
    /// The index does not fit in a 32-bit handle.
    HandleOverflow(usize),
}

/// How to take two slots at once.
#[derive(Clone, Copy, Debug, PartialEq, Eq, Structural)]
pub enum PairAccess {
    /// Both handles name this slot: lock it once and give the second side a copy.
    Same(usize),
    /// Lock `lower`, then `upper`; `src_is_lower` says which of the two the
    /// first handle named.
    Ordered { lower: usize, upper: usize, src_is_lower: bool },
}

/// The arena index that a host handle stands for.
pub fn handle_to_index(handle: u32) -> (r: usize)
    ensures
        r as int == handle as int,
{
    handle as usize
}

/// The host handle for an arena index, if the index fits in 32 bits.
pub fn index_to_handle(idx: usize) -> (r: Result<u32, AccessError>)
    ensures
        idx <= u32::MAX ==> r == Ok::<u32, AccessError>(idx as u32),
        idx > u32::MAX ==> r == Err::<u32, AccessError>(AccessError::HandleOverflow(idx)),
{
    if idx <= 0xffff_ffffusize {
        Ok(idx as u32)
    } else {
        Err(AccessError::HandleOverflow(idx))
    }
}

/// The value in slot `idx`, or `NotFound` when that slot is not live.
pub fn lookup<T>(arena: &Arena<T>, idx: usize) -> (r: Result<&T, AccessError>)
    requires
        arena.wf(),
    ensures
        r is Ok <==> arena.is_live(idx as int),
        r matches Ok(v) ==> Some(*v) == arena@[idx as int],
        r is Err ==> r == Err::<&T, AccessError>(AccessError::NotFound(idx)),
{
    match arena.get(idx) {
        Some(v) => Ok(v),
        None => Err(AccessError::NotFound(idx)),
    }
}

/// The plan for taking slots `src` and `arg` together, given which slots are live.
pub open spec fn pair_plan<T>(slots: Seq<Option<T>>, src: usize, arg: usize) -> Result<
    PairAccess,
    AccessError,
> {
    if !(src < slots.len() && slots[src as int] is Some) {
        Err(AccessError::NotFound(src))
    } else if !(arg < slots.len() && slots[arg as int] is Some) {
        Err(AccessError::NotFound(arg))
    } else if src == arg {
        Ok(PairAccess::Same(src))
    } else if src < arg {
        Ok(PairAccess::Ordered { lower: src, upper: arg, src_is_lower: true })
    } else {
        Ok(PairAccess::Ordered { lower: arg, upper: src, src_is_lower: false })
    }
}

/// Decides how to take slots `src` and `arg` together: `NotFound` for the
/// first of them that is not live, one lock when they are the same slot, else
/// the lower index first.
pub fn plan_pair<T>(arena: &Arena<T>, src: usize, arg: usize) -> (r: Result<PairAccess, AccessError>)
    requires
        arena.wf(),
    ensures
        r == pair_plan(arena@, src, arg),
{
    if !arena.contains(src) {
        Err(AccessError::NotFound(src))
    } else if !arena.contains(arg) {
        Err(AccessError::NotFound(arg))
    } else if src == arg {
        Ok(PairAccess::Same(src))
    } else if src < arg {
        Ok(PairAccess::Ordered { lower: src, upper: arg, src_is_lower: true })
    } else {
        Ok(PairAccess::Ordered { lower: arg, upper: src, src_is_lower: false })
    }
}

/// Two callers that take the same two distinct live slots, in either order of
/// handles, lock them in one and the same order, lower index first; so pair
/// operations on the same slots cannot wait on each other in a cycle.
pub proof fn lemma_pair_lock_order<T>(slots: Seq<Option<T>>, i: usize, j: usize)
    requires
        i != j,
        i < slots.len() && slots[i as int] is Some,
        j < slots.len() && slots[j as int] is Some,
    ensures
        pair_plan(slots, i, j) matches Ok(PairAccess::Ordered { lower: l1, upper: u1, src_is_lower: s1 })
            && pair_plan(slots, j, i) matches Ok(PairAccess::Ordered { lower: l2, upper: u2, src_is_lower: s2 })
            && l1 == l2 && u1 == u2 && l1 < u1 && s1 != s2
            && (s1 ==> l1 == i && u1 == j) && (!s1 ==> l1 == j && u1 == i),
{
}

/// The distinct live slots among `handles`, in ascending order.
pub fn plan_group<T>(arena: &Arena<T>, handles: &Vec<usize>) -> (r: Vec<usize>)
    requires
        arena.wf(),
    ensures
        forall|a: int, b: int| 0 <= a < b < r@.len() ==> r@[a] < r@[b],
        forall|x: usize| r@.contains(x) <==> (handles@.contains(x) && arena.is_live(x as int)),
{
    let mut members: BTreeSet<usize> = BTreeSet::new();
    let mut i: usize = 0;
    while i < handles.len()
        invariant
            arena.wf(),
            0 <= i <= handles@.len(),
            forall|x: usize|
                members@.contains(x) <==> (handles@.subrange(0, i as int).contains(x)
                    && arena.is_live(x as int)),
        decreases handles@.len() - i,
    {
        let h = handles[i];
        proof {
            let pre = handles@.subrange(0, i as int);
            let post = handles@.subrange(0, i as int + 1);
            assert(post =~= pre.push(h));
            assert forall|x: usize| post.contains(x) <==> (pre.contains(x) || x == h) by {
                if post.contains(x) {
                    let k = choose|k: int| 0 <= k < post.len() && #[trigger] post[k] == x;
                    if k < i {
                        assert(pre[k] == x);
                    }
                }
                if pre.contains(x) {
                    let k = choose|k: int| 0 <= k < pre.len() && #[trigger] pre[k] == x;
                    assert(post[k] == x);
                }
                if x == h {
                    assert(post[i as int] == x);
                }
            }
        }
        if arena.contains(h) {
            members.insert(h);
        }
        i = i + 1;
    }
    proof {
        assert(handles@.subrange(0, i as int) =~= handles@);
    }
    let mut r: Vec<usize> = Vec::new();
    proof {
        let keys = spec_btree_keys_iter(&members).remaining();
        assert(keys.unref().to_set() == members@);
        assert(increasing_seq(keys));
        assert(obeys_cmp::<usize>());
        assert(obeys_cmp::<&usize>());
        axiom_increasing_seq_meaning(keys);
        assert forall|a: int, b: int| 0 <= a < b < keys.len() implies *keys[a] < *keys[b] by {
            assert(<&usize as OrdSpec>::cmp_spec(&keys[a], &keys[b]) is Less);
            assert(<usize as OrdSpec>::cmp_spec(keys[a], keys[b]) is Less);
        }
        assert forall|x: usize| #[trigger] members@.contains(x) implies keys.unref().skip(0).contains(x) by {
            assert(keys.unref().to_set().contains(x));
            assert(keys.unref().skip(0) =~= keys.unref());
        }
    }
    for x in it: members.iter()
        invariant
            it.seq().unref().to_set() == members@,
            it.seq().unref().no_duplicates(),
            forall|a: int, b: int| 0 <= a < b < it.seq().len() ==> *it.seq()[a] < *it.seq()[b],
            r@ == it.seq().unref().take(it.index() as int),
            forall|a: int, b: int| 0 <= a < b < r@.len() ==> r@[a] < r@[b],
            forall|k: int| 0 <= k < r@.len() ==> members@.contains(#[trigger] r@[k]),
            forall|x: usize|
                #[trigger] members@.contains(x) ==> r@.contains(x) || it.seq().unref().skip(
                    it.index() as int,
                ).contains(x),
    {
        let ghost all = it.seq().unref();
        let ghost idx = it.index() as int;
        r.push(*x);
        proof {
            assert(r@ =~= all.take(idx + 1));
            assert forall|k: int| 0 <= k < r@.len() implies members@.contains(#[trigger] r@[k]) by {
                assert(all.to_set().contains(all[k]));
            }
            assert forall|x: usize| #[trigger] members@.contains(x) implies r@.contains(x) || all.skip(idx + 1).contains(x) by {
                if !r@.contains(x) {
                    assert(all.skip(idx).contains(x));
                    let k = choose|k: int| 0 <= k < all.skip(idx).len() && all.skip(idx)[k] == x;
                    if k == 0 {
                        assert(r@[idx] == x);
                    } else {
                        assert(all.skip(idx + 1)[k - 1] == x);
                    }
                }
            }
        }
    }
    proof {
        assert forall|x: usize| r@.contains(x) <==> members@.contains(x) by {
            if r@.contains(x) {
                let k = choose|k: int| 0 <= k < r@.len() && r@[k] == x;
            }
        }
    }
    r
}

} // verus!
