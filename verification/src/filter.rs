//! The proposal side of the Metropolis filters. A swap proposal reads the
//! two edges it would replace; the three filter families (constant, additive,
//! multiplicative) weigh that proposal with floating-point arithmetic in the
//! driver, while the exact bookkeeping of the match itself stays here.

use crate::graph::Match;
use vstd::prelude::*;

verus! {

/// A proposed two-edge swap: the edges (u1, v1) and (u2, v2) would become
/// (u1, v2) and (u2, v1).
#[derive(Clone, Copy, Debug)]
pub struct Proposal {
    pub u1: usize,
    pub v1: usize,
    pub u2: usize,
    pub v2: usize,
}

impl Proposal {
    /// Read the two edges that a swap of positions i and j would replace.
    pub fn of_match(matching: &Match, i: usize, j: usize) -> (r: Proposal)
        requires
            i < matching@.len(),
            j < matching@.len(),
        ensures
            r.u1 == matching@[i as int].0,
            r.v1 == matching@[i as int].1,
            r.u2 == matching@[j as int].0,
            r.v2 == matching@[j as int].1,
    {
        let (u1, v1) = matching.edge_at(i);
        let (u2, v2) = matching.edge_at(j);
        Proposal { u1, v1, u2, v2 }
    }
}

} // verus!
