//! Estimation of the permanent of a 0/1 matrix — equivalently, the number of
//! perfect matchings of a bipartite graph — by a simulated-annealing Markov
//! chain Monte Carlo sampler with adaptive importance weights.
//!
//! This crate holds the verified core: the Dinic max-flow matcher that
//! certifies feasibility and produces an initial perfect matching, the
//! bit-packed adjacency matrix, permutation matchings and their swap moves,
//! the cached active-edge count, the edge-incidence histogram, and the
//! two-phase cooling schedule. The floating-point layers around this core
//! (learned edge weights, Metropolis acceptance ratios, the running
//! estimator) are driven by an unverified front end that consumes the
//! integer state and proofs exposed here.

pub mod chain_state;
pub mod cooling_schedule;
pub mod cooling_state;
pub mod dinic;
pub mod filter;
pub mod graph;
pub mod markov_chain;

use vstd::prelude::*;

verus! {

/// Which Metropolis filter family the sampler runs with.
#[derive(Clone, Copy, Debug, PartialEq, Eq, Structural)]
pub enum Filter {
    Additive,
    Multiplicative,
    Constant,
}

/// Command-line configuration handed to the driver. The front end parses the
/// actual arguments and fills this in; defaults mirror the sampler's tuning.
#[derive(Clone, Debug)]
pub struct Cli {
    /// Path to the graph file.
    pub graph_path: String,
    /// Number of chains.
    pub num_of_chains: usize,
    /// Potential mixing time of initial runs.
    pub warmup_times: usize,
    /// Potential relaxation time of the chain (for weight estimation).
    pub weight_sample_intervals: usize,
    /// Potential relaxation time of the chain (for estimator estimation).
    pub estimator_sample_intervals: usize,
    /// Number of samples from each chain for weight estimation.
    pub num_of_weight_estimations: usize,
    /// Number of samples from each chain for estimator estimation.
    pub num_of_estimator_estimations: usize,
    /// Number of threads to use (all available threads if not specified).
    pub num_of_threads: Option<usize>,
    /// Slow-down factor of the additive increment; at least 1.
    pub additive_slow_down: usize,
    /// Slow-down factor of the multiplicative increment; at least 1.
    pub mutiplicative_slow_down: usize,
    /// Metropolis filter to use.
    pub filter: Filter,
}

} // verus!
