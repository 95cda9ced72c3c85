//! Integer core of the vibe-graph experiments: the room topology, the
//! deterministic input generator, and the bookkeeping that tracks when
//! rooms converge or dissolve.
use vstd::prelude::*;

pub mod rng;
pub mod topology;
pub mod tracking;

verus! {
} // verus!
