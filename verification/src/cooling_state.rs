//! The annealing state's integer core: the immutable adjacency matrix of the
//! input graph, edge activities, and the cached count of active edges of a
//! match. The learned edge-weight matrix and the temperature live in the
//! floating-point layer around this crate; every quantity here is exact.

pub use crate::chain_state::BitMatrix;

use crate::graph::{Graph, Match};
use vstd::prelude::*;

verus! {

/// Immutable adjacency of the input graph, bit-packed.
pub struct State {
    adjacency: BitMatrix,
}

impl State {
    /// Number of vertices on each side.
    pub closed spec fn dim(self) -> int {
        self.adjacency.dim()
    }

    pub closed spec fn wf(self) -> bool {
        self.adjacency.wf()
    }

    /// (u, v) is an edge of the underlying graph.
    pub closed spec fn active(self, u: int, v: int) -> bool {
        self.adjacency.entry(u, v)
    }

    /// 1 for an active pair, 0 otherwise.
    pub open spec fn act(self, e: (usize, usize)) -> int {
        if self.active(e.0 as int, e.1 as int) {
            1
        } else {
            0
        }
    }

    /// Number of edges of the sequence that are active, i.e. |M ∩ A|.
    pub open spec fn match_active_count(self, s: Seq<(usize, usize)>) -> int
        decreases s.len(),
    {
        if s.len() == 0 {
            0
        } else {
            self.match_active_count(s.drop_last()) + self.act(s.last())
        }
    }

    /// Every pair of the sequence is within the matrix bounds.
    pub open spec fn edges_in_range(self, s: Seq<(usize, usize)>) -> bool {
        forall|k: int| 0 <= k < s.len()
            ==> (#[trigger] s[k]).0 < self.dim() && s[k].1 < self.dim()
    }

    /// Number of vertices on each side.
    pub fn dimension(&self) -> (r: usize)
        ensures
            r == self.dim(),
    {
        self.adjacency.dimension()
    }

    /// Build the adjacency matrix from the graph's edge lists.
    pub fn from_graph(graph: &Graph) -> (r: Self)
        requires
            graph.wf(),
        ensures
            r.wf(),
            r.dim() == graph.size,
            forall|u: int, v: int|
                0 <= u < graph.size && 0 <= v < graph.size
                    ==> r.active(u, v) == graph.has_edge(u, v),
    {
        let n = graph.size;
        let mut adjacency = BitMatrix::new(n);
        let mut u: usize = 0;
        while u < n
            invariant
                u <= n,
                graph.wf(),
                n == graph.size,
                adjacency.wf(),
                adjacency.dim() == n,
                forall|x: int, y: int|
                    0 <= x < n && 0 <= y < n
                        ==> adjacency.entry(x, y) == (x < u && graph.has_edge(x, y)),
            decreases n - u,
        {
            let row = &graph.edges[u];
            let mut k: usize = 0;
            while k < row.len()
                invariant
                    k <= row.len(),
                    graph.wf(),
                    n == graph.size,
                    u < n,
                    row == &graph.edges[u as int],
                    adjacency.wf(),
                    adjacency.dim() == n,
                    forall|x: int, y: int|
                        0 <= x < n && 0 <= y < n
                            ==> adjacency.entry(x, y) == (
                                (x < u && graph.has_edge(x, y))
                                || (x == u && exists|j: int| 0 <= j < k && row@[j] == y)
                            ),
                decreases row.len() - k,
            {
                let v = row[k];
                adjacency.set(u, v, true);
                proof {
                    assert(row@[k as int] == v);
                }
                k += 1;
            }
            proof {
                assert forall|y: int| 0 <= y < n implies
                    (exists|j: int| 0 <= j < row@.len() && row@[j] == y)
                        == graph.has_edge(u as int, y) by {
                }
            }
            u += 1;
        }
        State { adjacency }
    }

    /// 1 if (u, v) is an edge of the graph, 0 otherwise.
    pub fn activity_of_edge(&self, u: usize, v: usize) -> (r: usize)
        requires
            self.wf(),
            u < self.dim(),
            v < self.dim(),
        ensures
            r == self.act((u, v)),
    {
        if self.adjacency.get(u, v) {
            1
        } else {
            0
        }
    }

    /// Count from scratch how many edges of the match are active.
    pub fn active_count_of_match(&self, matching: &Match) -> (r: usize)
        requires
            self.wf(),
            self.edges_in_range(matching@),
        ensures
            r == self.match_active_count(matching@),
    {
        let n = matching.size();
        let mut count: usize = 0;
        let mut k: usize = 0;
        while k < n
            invariant
                k <= n,
                n == matching@.len(),
                self.wf(),
                self.edges_in_range(matching@),
                count == self.match_active_count(matching@.subrange(0, k as int)),
                count <= k,
            decreases n - k,
        {
            let (u, v) = matching.edge_at(k);
            proof {
                let s = matching@;
                assert(s.subrange(0, k + 1).drop_last() =~= s.subrange(0, k as int));
                assert(s.subrange(0, k + 1).last() == s[k as int]);
            }
            if self.adjacency.get(u, v) {
                count += 1;
            }
            k += 1;
        }
        proof {
            assert(matching@.subrange(0, matching@.len() as int) =~= matching@);
        }
        count
    }

    /// The cached active count after an accepted swap of positions i and j,
    /// computed from the four edge activities alone. The result equals a full
    /// recount of the swapped match.
    pub fn active_count_after_swap(
        &self,
        matching: &Match,
        i: usize,
        j: usize,
        count: usize,
    ) -> (r: usize)
        requires
            self.wf(),
            self.edges_in_range(matching@),
            i < matching@.len(),
            j < matching@.len(),
            i != j,
            count == self.match_active_count(matching@),
        ensures
            r == self.match_active_count(
                matching@
                    .update(i as int, (matching@[i as int].0, matching@[j as int].1))
                    .update(j as int, (matching@[j as int].0, matching@[i as int].1)),
            ),
    {
        let n = matching.size();
        let (u1, v1) = matching.edge_at(i);
        let (u2, v2) = matching.edge_at(j);
        let a1 = self.activity_of_edge(u1, v1);
        let a2 = self.activity_of_edge(u2, v2);
        let a3 = self.activity_of_edge(u1, v2);
        let a4 = self.activity_of_edge(u2, v1);
        proof {
            assert((u1, v1) == matching@[i as int]);
            assert((u2, v2) == matching@[j as int]);
            self.lemma_active_count_pair_lower(matching@, i as int, j as int);
            self.lemma_active_count_swap(matching@, i as int, j as int);
            assert(a1 + a2 <= count);
            assert(count - a1 - a2 + a3 + a4 <= n);
        }
        count - a1 - a2 + a3 + a4
    }

    /// The active count of a sequence lies between 0 and its length.
    pub proof fn lemma_active_count_bounds(self, s: Seq<(usize, usize)>)
        ensures
            0 <= self.match_active_count(s) <= s.len(),
        decreases s.len(),
    {
        if s.len() > 0 {
            self.lemma_active_count_bounds(s.drop_last());
        }
    }

    /// One edge's activity bounds the whole count from both sides.
    proof fn lemma_active_count_single_lower(self, s: Seq<(usize, usize)>, i: int)
        requires
            0 <= i < s.len(),
        ensures
            self.act(s[i]) <= self.match_active_count(s)
                <= s.len() - 1 + self.act(s[i]),
        decreases s.len(),
    {
        self.lemma_active_count_bounds(s.drop_last());
        if i < s.len() - 1 {
            self.lemma_active_count_single_lower(s.drop_last(), i);
        }
    }

    /// Two distinct edges' activities together bound the whole count from
    /// both sides.
    proof fn lemma_active_count_pair_lower(self, s: Seq<(usize, usize)>, i: int, j: int)
        requires
            0 <= i < s.len(),
            0 <= j < s.len(),
            i != j,
        ensures
            self.act(s[i]) + self.act(s[j]) <= self.match_active_count(s)
                <= s.len() - 2 + self.act(s[i]) + self.act(s[j]),
        decreases s.len(),
    {
        if i == s.len() - 1 {
            self.lemma_active_count_single_lower(s.drop_last(), j);
        } else if j == s.len() - 1 {
            self.lemma_active_count_single_lower(s.drop_last(), i);
        } else {
            self.lemma_active_count_pair_lower(s.drop_last(), i, j);
        }
    }

    /// Replacing one edge shifts the count by the difference of the two
    /// activities.
    proof fn lemma_active_count_update(self, s: Seq<(usize, usize)>, k: int, e: (usize, usize))
        requires
            0 <= k < s.len(),
        ensures
            self.match_active_count(s.update(k, e))
                == self.match_active_count(s) - self.act(s[k]) + self.act(e),
        decreases s.len(),
    {
        if k == s.len() - 1 {
            assert(s.update(k, e).drop_last() =~= s.drop_last());
        } else {
            assert(s.update(k, e).drop_last() =~= s.drop_last().update(k, e));
            self.lemma_active_count_update(s.drop_last(), k, e);
        }
    }

    /// An accepted swap changes the active count by the activities of the two
    /// edges that leave and the two that enter.
    pub proof fn lemma_active_count_swap(self, s: Seq<(usize, usize)>, i: int, j: int)
        requires
            0 <= i < s.len(),
            0 <= j < s.len(),
            i != j,
        ensures
            self.match_active_count(
                s.update(i, (s[i].0, s[j].1)).update(j, (s[j].0, s[i].1)),
            ) == self.match_active_count(s)
                - self.act(s[i]) - self.act(s[j])
                + self.act((s[i].0, s[j].1)) + self.act((s[j].0, s[i].1)),
    {
        let s1 = s.update(i, (s[i].0, s[j].1));
        self.lemma_active_count_update(s, i, (s[i].0, s[j].1));
        self.lemma_active_count_update(s1, j, (s[j].0, s[i].1));
        assert(s1[j] == s[j]);
    }
}

} // verus!
