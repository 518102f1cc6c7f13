//! Digest of what a mixture shows to clients.
//!
//! A mixture is drawn from the gases that pass their visibility threshold,
//! each at a step of its amount. The digest of those `(gas, step)` pairs lets
//! the turf grid send an update only when the picture changed.
use vstd::prelude::*;

use std::hash::Hasher;

verus! {

#[verifier::external_type_specification]
#[verifier::external_body]
pub struct ExAHasher(ahash::AHasher);

/// Relies on `<ahash::AHasher as Default>::default`: a hasher with the
/// process's fixed keys.
#[verifier::external_body]
fn fresh_hasher() -> ahash::AHasher {
    ahash::AHasher::default()
}

/// Relies on `<ahash::AHasher as Hasher>::write_usize`: feeds one word.
#[verifier::external_body]
fn feed_word(hasher: &mut ahash::AHasher, word: usize) {
    hasher.write_usize(word)
}

/// Relies on `<ahash::AHasher as Hasher>::finish`: the digest of what was fed.
#[verifier::external_body]
fn digest(hasher: &ahash::AHasher) -> u64 {
    hasher.finish()
}

/// The words that make up the digest of the visible gases, in the order
/// they are fed: for each entry of `visible`, its gas and then its step.
pub open spec fn vis_words(visible: Seq<(usize, u32)>) -> Seq<usize> {
    Seq::new(
        (2 * visible.len()) as nat,
        |k: int|
            if k % 2 == 0 {
                visible[k / 2].0
            } else {
                visible[k / 2].1 as usize
            },
    )
}

/// The words fed to the hasher for `visible`: each gas and then its step.
pub fn vis_hash_words(visible: &Vec<(usize, u32)>) -> (r: Vec<usize>)
    ensures
        r@ == vis_words(visible@),
{
    let mut r: Vec<usize> = Vec::new();
    let mut i: usize = 0;
    while i < visible.len()
        invariant
            0 <= i <= visible@.len(),
            r@ == vis_words(visible@.subrange(0, i as int)),
        decreases visible@.len() - i,
    {
        let (gas, step) = visible[i];
        let ghost pre = r@;
        r.push(gas);
        r.push(step as usize);
        proof {
            let sub = visible@.subrange(0, i as int + 1);
            assert forall|k: int| 0 <= k < 2 * i implies #[trigger] vis_words(sub)[k] == pre[k] by {
                assert(sub[k / 2] == visible@.subrange(0, i as int)[k / 2]);
            }
            assert(vis_words(sub)[2 * i] == gas);
            assert(vis_words(sub)[2 * i + 1] == step as usize);
            assert(r@ =~= vis_words(sub));
        }
        i = i + 1;
    }
    proof {
        assert(visible@.subrange(0, i as int) =~= visible@);
    }
    r
}

/// The digest of the visible gases: `visible` holds, in ascending gas order,
/// each visible gas with its visibility step. Exactly the words of
/// `vis_hash_words`, in order, are fed to one fresh hasher with the
/// process's fixed keys. Those keys are drawn once per process, so nothing
/// is promised of the digest's value.
pub fn vis_hash(visible: &Vec<(usize, u32)>) -> u64 {
    let words = vis_hash_words(visible);
    let mut hasher = fresh_hasher();
    let mut i: usize = 0;
    while i < words.len()
        invariant
            0 <= i <= words@.len(),
        decreases words@.len() - i,
    {
        feed_word(&mut hasher, words[i]);
        i = i + 1;
    }
    digest(&hasher)
}

} // verus!
