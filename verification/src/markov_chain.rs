//! The ensemble's tuning knobs and the edge-incidence histogram that each
//! annealing step fills. One counter per matrix cell is bumped for every
//! sampled edge; the floating-point reweighting that folds the histogram into
//! the next weight matrix belongs to the unverified driver, which reads the
//! counters back out through `get`.

use vstd::prelude::*;

verus! {

/// Tuning parameters of the Markov chain ensemble.
#[derive(Debug, Clone, Copy)]
pub struct Config {
    /// Number of chains.
    pub num_of_chains: usize,
    /// Potential mixing time of initial runs.
    pub warmup_times: usize,
    /// Potential relaxation time of the chain (weight estimation).
    pub weight_sample_intervals: usize,
    /// Potential relaxation time of the chain (estimator estimation).
    pub estimator_sample_intervals: usize,
    /// Number of samples from each chain for weight estimation.
    pub num_of_weight_estimations: usize,
    /// Number of samples from each chain for estimator estimation.
    pub num_of_estimator_estimations: usize,
}

impl Default for Config {
    /// The defaults the driver starts from.
    fn default() -> (r: Self)
        ensures
            r.num_of_chains == 1024,
            r.warmup_times == 16384,
            r.weight_sample_intervals == 8,
            r.estimator_sample_intervals == 128,
            r.num_of_weight_estimations == 2048,
            r.num_of_estimator_estimations == 16,
    {
        Config {
            num_of_chains: 1024,
            warmup_times: 16384,
            weight_sample_intervals: 8,
            estimator_sample_intervals: 128,
            num_of_weight_estimations: 2048,
            num_of_estimator_estimations: 16,
        }
    }
}

/// An n-by-n matrix of edge-incidence counters.
pub struct AtomicMatrix {
    size: usize,
    data: Vec<u64>,
}

impl AtomicMatrix {
    /// Side length of the matrix.
    pub closed spec fn dim(self) -> int {
        self.size as int
    }

    pub closed spec fn wf(self) -> bool {
        &&& self.size <= 0x8000
        &&& self.data.len() == self.size * self.size
    }

    /// The counter for entry (u, v).
    pub closed spec fn count(self, u: int, v: int) -> int {
        self.data[u * self.dim() + v] as int
    }

    proof fn lemma_index_in_range(self, u: int, v: int)
        requires
            self.wf(),
            0 <= u < self.dim(),
            0 <= v < self.dim(),
        ensures
            0 <= u * self.dim() + v < self.data.len(),
    {
        let s = self.dim();
        assert(0 <= u * s + v < s * s) by (nonlinear_arith)
            requires 0 <= u < s && 0 <= v < s;
    }

    proof fn lemma_index_injective(self, u: int, v: int, x: int, y: int)
        requires
            self.wf(),
            0 <= u < self.dim(),
            0 <= v < self.dim(),
            0 <= x < self.dim(),
            0 <= y < self.dim(),
            u * self.dim() + v == x * self.dim() + y,
        ensures
            u == x,
            v == y,
    {
        let s = self.dim();
        assert(u == x && v == y) by (nonlinear_arith)
            requires
                0 <= u < s && 0 <= v < s && 0 <= x < s && 0 <= y < s,
                u * s + v == x * s + y;
    }

    /// Side length of the matrix.
    pub fn dimension(&self) -> (r: usize)
        ensures
            r == self.dim(),
    {
        self.size
    }

    /// A fresh histogram with every counter at zero.
    pub fn new(size: usize) -> (r: Self)
        requires
            size <= 0x8000,
        ensures
            r.wf(),
            r.dim() == size,
            forall|u: int, v: int|
                0 <= u < size && 0 <= v < size ==> r.count(u, v) == 0,
    {
        proof {
            assert(size * size <= 0x4000_0000) by (nonlinear_arith)
                requires size <= 0x8000;
        }
        let cells = size * size;
        let mut data: Vec<u64> = Vec::new();
        while data.len() < cells
            invariant
                data.len() <= cells,
                forall|k: int| 0 <= k < data.len() ==> data[k] == 0u64,
            decreases cells - data.len(),
        {
            data.push(0u64);
        }
        let r = AtomicMatrix { size, data };
        proof {
            assert forall|u: int, v: int|
                0 <= u < size && 0 <= v < size implies r.count(u, v) == 0 by {
                r.lemma_index_in_range(u, v);
            }
        }
        r
    }

    /// Bump the counter at (u, v) by one.
    pub fn inc(&mut self, u: usize, v: usize)
        requires
            old(self).wf(),
            u < old(self).dim(),
            v < old(self).dim(),
            old(self).count(u as int, v as int) < u64::MAX,
        ensures
            final(self).wf(),
            final(self).dim() == old(self).dim(),
            final(self).count(u as int, v as int) == old(self).count(u as int, v as int) + 1,
            forall|x: int, y: int|
                0 <= x < old(self).dim() && 0 <= y < old(self).dim()
                    && !(x == u && y == v)
                    ==> final(self).count(x, y) == old(self).count(x, y),
    {
        proof {
            self.lemma_index_in_range(u as int, v as int);
        }
        let idx = u * self.size + v;
        let w = self.data[idx];
        self.data.set(idx, w + 1);
        proof {
            assert forall|x: int, y: int|
                0 <= x < old(self).dim() && 0 <= y < old(self).dim()
                    && !(x == u as int && y == v as int)
                    implies final(self).count(x, y) == old(self).count(x, y) by {
                old(self).lemma_index_in_range(x, y);
                if x * old(self).dim() + y == u as int * old(self).dim() + v {
                    old(self).lemma_index_injective(u as int, v as int, x, y);
                }
            }
        }
    }

    /// Read the counter at (u, v).
    pub fn get(&self, u: usize, v: usize) -> (r: u64)
        requires
            self.wf(),
            u < self.dim(),
            v < self.dim(),
        ensures
            r == self.count(u as int, v as int),
    {
        proof {
            self.lemma_index_in_range(u as int, v as int);
        }
        self.data[u * self.size + v]
    }
}

} // verus!
