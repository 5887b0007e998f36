//! Random rearrangements of symbol sequences that keep the multiset of every length-k
//! substring (k-let): an Eulerian-walk engine over the overlap multigraph, a block-swap
//! and rotation engine, a split-and-shuffle method, and the k-let comparison they are
//! checked against.
use vstd::prelude::*;

pub mod altschul;
pub mod custom;
pub mod kandel;
mod rng;
pub mod unionfind;
pub mod utils;
pub mod eulerian;

verus! {

} // verus!
