//! Mixture arena and handle layer of a gas simulation core, with the
//! integer-valued decisions around gas mixtures: which reactions run and
//! what a mixture shows to clients.
use vstd::prelude::*;

pub mod access;
pub mod arena;
pub mod reactions;
pub mod registry;
pub mod visibility;

verus! {

} // verus!
