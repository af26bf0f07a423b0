//! Dinic's max-flow algorithm on an explicit edge list.
//!
//! `add_edge` appends the forward edge at an even index and its zero-capacity
//! reverse at the following odd index, so the reverse of edge `id` is
//! `id ^ 1`. The flow loop alternates a BFS that levels the residual graph
//! from the source with blocking-flow walks that push along level-increasing
//! paths; a per-node pointer ensures each edge is examined at most once per
//! phase. The walk is iterative, so deep graphs cost heap, not call stack.
//!
//! The contracts pin down that the result is a genuine maximal flow: every
//! flow stays within its capacity and mirrors its reverse edge, every node
//! except the source and the sink conserves flow, the reported total equals
//! the flow leaving the source and never exceeds the capacity leaving it,
//! and when the loop stops no augmenting path remains — the certificate that
//! the flow value is maximum.

use std::collections::VecDeque;
use vstd::prelude::*;

verus! {

/// Number of entries still holding the unreached sentinel.
spec fn unleveled_count(levels: Seq<usize>) -> int
    decreases levels.len(),
{
    if levels.len() == 0 {
        0
    } else {
        unleveled_count(levels.drop_last()) + if levels.last() == usize::MAX {
            1int
        } else {
            0int
        }
    }
}

proof fn lemma_unleveled_bounds(levels: Seq<usize>)
    ensures
        0 <= unleveled_count(levels) <= levels.len(),
    decreases levels.len(),
{
    if levels.len() > 0 {
        lemma_unleveled_bounds(levels.drop_last());
    }
}

proof fn lemma_unleveled_all(levels: Seq<usize>)
    requires
        forall|v: int| 0 <= v < levels.len() ==> levels[v] == usize::MAX,
    ensures
        unleveled_count(levels) == levels.len(),
    decreases levels.len(),
{
    if levels.len() > 0 {
        lemma_unleveled_all(levels.drop_last());
    }
}

proof fn lemma_unleveled_lower(levels: Seq<usize>, j: int)
    requires
        0 <= j < levels.len(),
        levels[j] == usize::MAX,
    ensures
        unleveled_count(levels) >= 1,
    decreases levels.len(),
{
    lemma_unleveled_bounds(levels.drop_last());
    if j < levels.len() - 1 {
        lemma_unleveled_lower(levels.drop_last(), j);
    }
}

proof fn lemma_unleveled_update(levels: Seq<usize>, j: int, x: usize)
    requires
        0 <= j < levels.len(),
        levels[j] == usize::MAX,
        x != usize::MAX,
    ensures
        unleveled_count(levels.update(j, x)) == unleveled_count(levels) - 1,
    decreases levels.len(),
{
    if j == levels.len() - 1 {
        assert(levels.update(j, x).drop_last() =~= levels.drop_last());
    } else {
        assert(levels.update(j, x).drop_last() =~= levels.drop_last().update(j, x));
        lemma_unleveled_update(levels.drop_last(), j, x);
    }
}

#[derive(Clone, Copy)]
struct Edge {
    from: usize,
    to: usize,
    cap: isize,
    flow: isize,
}

/// A flow network with a distinguished source and sink.
pub struct DinicGraph {
    /// current flow
    flow: isize,
    /// map from node to edges
    adjacency: Vec<Vec<usize>>,
    /// edge storage
    edges: Vec<Edge>,
    /// level graph
    level: Vec<usize>,
    /// pointer to the next edge
    pointer: Vec<usize>,
    /// source node
    source: usize,
    /// sink node
    sink: usize,
}

impl DinicGraph {
    /// Number of nodes.
    pub closed spec fn n(self) -> int {
        self.adjacency.len() as int
    }

    pub closed spec fn spec_source(self) -> int {
        self.source as int
    }

    pub closed spec fn spec_sink(self) -> int {
        self.sink as int
    }

    /// Number of stored edges, reverse edges included; always even.
    pub closed spec fn edge_count(self) -> int {
        self.edges.len() as int
    }

    pub closed spec fn edge_from(self, id: int) -> int {
        self.edges[id].from as int
    }

    pub closed spec fn edge_to(self, id: int) -> int {
        self.edges[id].to as int
    }

    pub closed spec fn edge_cap(self, id: int) -> int {
        self.edges[id].cap as int
    }

    pub closed spec fn edge_flow(self, id: int) -> int {
        self.edges[id].flow as int
    }

    /// Remaining capacity of an edge.
    pub(crate) open spec fn residual(self, id: int) -> int {
        self.edge_cap(id) - self.edge_flow(id)
    }

    /// The reverse companion of an edge: its index with the lowest bit
    /// flipped.
    pub(crate) open spec fn mate(id: int) -> int {
        if id % 2 == 0 {
            id + 1
        } else {
            id - 1
        }
    }

    /// The edge ids leaving node v.
    pub closed spec fn adj(self, v: int) -> Seq<usize> {
        self.adjacency[v]@
    }

    spec fn level_of(self, v: int) -> int {
        self.level[v] as int
    }

    spec fn levels(self) -> Seq<usize> {
        self.level@
    }

    /// v was reached by the last BFS.
    spec fn leveled(self, v: int) -> bool {
        self.level_of(v) != usize::MAX as int
    }

    spec fn pointer_of(self, v: int) -> int {
        self.pointer[v] as int
    }

    /// Total flow pushed so far, as reported by `calculate_flow`.
    pub closed spec fn flow_total(self) -> int {
        self.flow as int
    }

    /// Sum of the flows of the listed edges.
    pub closed spec fn sum_flow(self, ids: Seq<usize>) -> int
        decreases ids.len(),
    {
        if ids.len() == 0 {
            0
        } else {
            self.sum_flow(ids.drop_last()) + self.edge_flow(ids.last() as int)
        }
    }

    /// Sum of the capacities of the listed edges.
    pub closed spec fn sum_cap(self, ids: Seq<usize>) -> int
        decreases ids.len(),
    {
        if ids.len() == 0 {
            0
        } else {
            self.sum_cap(ids.drop_last()) + self.edge_cap(ids.last() as int)
        }
    }

    /// Sum of the capacities of the first `k` edges.
    pub closed spec fn cap_prefix(self, k: int) -> int
        decreases k,
    {
        if k <= 0 {
            0
        } else {
            self.cap_prefix(k - 1) + self.edge_cap(k - 1)
        }
    }

    /// Sum of all edge capacities.
    pub open spec fn total_cap(self) -> int {
        self.cap_prefix(self.edge_count())
    }

    /// Capacity leaving the source.
    pub open spec fn source_cap(self) -> int {
        self.sum_cap(self.adj(self.spec_source()))
    }

    /// Flow leaving the source.
    pub open spec fn source_flow(self) -> int {
        self.sum_flow(self.adj(self.spec_source()))
    }

    /// Both halves of the pair starting at edge 2k are consistent: the
    /// reverse mirrors the forward edge, carries no capacity of its own, and
    /// the forward flow stays within its capacity.
    pub closed spec fn pair_wf(self, k: int) -> bool {
        &&& 0 <= self.edge_from(2 * k) < self.n()
        &&& 0 <= self.edge_to(2 * k) < self.n()
        &&& self.edge_from(2 * k + 1) == self.edge_to(2 * k)
        &&& self.edge_to(2 * k + 1) == self.edge_from(2 * k)
        &&& self.edge_cap(2 * k + 1) == 0
        &&& 0 <= self.edge_cap(2 * k)
        &&& 0 <= self.edge_flow(2 * k) <= self.edge_cap(2 * k)
        &&& self.edge_flow(2 * k + 1) == -self.edge_flow(2 * k)
    }

    /// The adjacency list of v holds distinct edge ids, each a valid edge
    /// leaving v, and the phase pointer stays within it.
    pub closed spec fn adj_wf(self, v: int) -> bool {
        &&& self.adj(v).no_duplicates()
        &&& forall|k: int| 0 <= k < self.adj(v).len()
            ==> (#[trigger] self.adj(v)[k]) < self.edge_count()
                && self.edge_from(self.adj(v)[k] as int) == v
        &&& self.pointer_of(v) <= self.adj(v).len()
    }

    pub closed spec fn wf(self) -> bool {
        &&& self.n() < usize::MAX
        &&& self.level.len() == self.n()
        &&& self.pointer.len() == self.n()
        &&& 0 <= self.spec_source() < self.n()
        &&& 0 <= self.spec_sink() < self.n()
        &&& self.spec_source() != self.spec_sink()
        &&& self.edge_count() % 2 == 0
        &&& forall|k: int| 0 <= k && 2 * k < self.edge_count() ==> #[trigger] self.pair_wf(k)
        &&& forall|v: int| 0 <= v < self.n() ==> #[trigger] self.adj_wf(v)
        &&& self.total_cap() <= 0x7fff_ffff
        &&& self.source_cap() <= self.total_cap()
        &&& 0 <= self.flow_total()
    }

    /// The reported total matches the flow leaving the source.
    pub open spec fn flow_consistent(self) -> bool {
        self.flow_total() == self.source_flow()
    }

    /// Net flow leaving node w, reverse edges included.
    pub open spec fn node_flow(self, w: int) -> int {
        self.sum_flow(self.adj(w))
    }

    /// Every edge id is listed in the adjacency of its tail, so the per-node
    /// flow sums see every incident edge.
    pub open spec fn adj_complete(self) -> bool {
        forall|id: int| 0 <= id < self.edge_count()
            ==> #[trigger] self.adj(self.edge_from(id)).contains(id as usize)
    }

    /// The flows are a genuine flow: every node but the source and the sink
    /// passes on exactly what it receives.
    pub open spec fn conserving(self) -> bool {
        forall|w: int|
            0 <= w < self.n() && w != self.spec_source() && w != self.spec_sink()
                ==> #[trigger] self.node_flow(w) == 0
    }

    /// Equal shapes and equal flows give equal per-node flow sums.
    proof fn lemma_node_flows_same(self, prev: DinicGraph)
        requires
            self.wf(),
            self.same_shape(prev),
            forall|id: int| 0 <= id < self.edge_count()
                ==> #[trigger] self.edge_flow(id) == prev.edge_flow(id),
        ensures
            forall|w: int| 0 <= w < self.n()
                ==> #[trigger] self.node_flow(w) == prev.node_flow(w),
    {
        assert forall|w: int| 0 <= w < self.n()
            implies #[trigger] self.node_flow(w) == prev.node_flow(w) by {
            assert(self.adj_wf(w));
            assert(self.adj(w) == prev.adj(w));
            let ids = self.adj(w);
            assert forall|k: int| 0 <= k < ids.len()
                implies self.edge_flow((#[trigger] ids[k]) as int)
                    == prev.edge_flow(ids[k] as int) by {}
            self.lemma_sum_flow_same(prev, ids);
        }
    }

    /// Completeness of the adjacency lists carries over to a state with the
    /// same shape.
    proof fn lemma_adj_complete_same(self, prev: DinicGraph)
        requires
            prev.wf(),
            prev.adj_complete(),
            self.same_shape(prev),
        ensures
            self.adj_complete(),
    {
        assert forall|id: int| 0 <= id < self.edge_count()
            implies #[trigger] self.adj(self.edge_from(id)).contains(id as usize) by {
            prev.lemma_edge_props(id);
            assert(prev.adj(prev.edge_from(id)).contains(id as usize));
            assert(self.edge_from(id) == prev.edge_from(id));
            assert(self.adj(self.edge_from(id)) == prev.adj(prev.edge_from(id)));
        }
    }

    /// If between two states only the flows of the distinct listed edges `a`
    /// and `b` changed among the listed edges, the sum shifts by both
    /// differences.
    proof fn lemma_sum_flow_update2(self, other: DinicGraph, ids: Seq<usize>, a: usize, b: usize)
        requires
            ids.no_duplicates(),
            ids.contains(a),
            ids.contains(b),
            a != b,
            forall|k: int| 0 <= k < ids.len() && ids[k] != a && ids[k] != b
                ==> self.edge_flow(#[trigger] ids[k] as int) == other.edge_flow(ids[k] as int),
        ensures
            other.sum_flow(ids) == self.sum_flow(ids)
                + other.edge_flow(a as int) - self.edge_flow(a as int)
                + other.edge_flow(b as int) - self.edge_flow(b as int),
        decreases ids.len(),
    {
        let rest = ids.drop_last();
        assert(forall|k: int| 0 <= k < rest.len() ==> rest[k] == ids[k]);
        if ids.last() == a {
            assert(!rest.contains(a)) by {
                if rest.contains(a) {
                    let k = choose|k: int| 0 <= k < rest.len() && rest[k] == a;
                    assert(ids[k] == ids[ids.len() - 1]);
                }
            }
            assert(rest.contains(b)) by {
                let k = choose|k: int| 0 <= k < ids.len() && ids[k] == b;
                assert(rest[k] == b);
            }
            self.lemma_sum_flow_update(other, rest, b);
        } else if ids.last() == b {
            assert(!rest.contains(b)) by {
                if rest.contains(b) {
                    let k = choose|k: int| 0 <= k < rest.len() && rest[k] == b;
                    assert(ids[k] == ids[ids.len() - 1]);
                }
            }
            assert(rest.contains(a)) by {
                let k = choose|k: int| 0 <= k < ids.len() && ids[k] == a;
                assert(rest[k] == a);
            }
            self.lemma_sum_flow_update(other, rest, a);
        } else {
            assert(rest.contains(a)) by {
                let k = choose|k: int| 0 <= k < ids.len() && ids[k] == a;
                assert(rest[k] == a);
            }
            assert(rest.contains(b)) by {
                let k = choose|k: int| 0 <= k < ids.len() && ids[k] == b;
                assert(rest[k] == b);
            }
            self.lemma_sum_flow_update2(other, rest, a, b);
        }
    }

    /// The edge climbs exactly one level.
    spec fn level_edge(self, id: int) -> bool {
        self.level_of(self.edge_to(id)) == self.level_of(self.edge_from(id)) + 1
    }

    /// p is a chain of edges with positive residual from a to b.
    pub open spec fn residual_chain(self, p: Seq<usize>, a: int, b: int) -> bool {
        &&& p.len() >= 1
        &&& forall|i: int| 0 <= i < p.len()
            ==> (#[trigger] p[i]) < self.edge_count()
                && self.edge_cap(p[i] as int) - self.edge_flow(p[i] as int) >= 1
                && (i > 0 ==> self.edge_from(p[i] as int) == self.edge_to(p[i - 1] as int))
        &&& self.edge_from(p[0] as int) == a
        &&& self.edge_to(p[p.len() - 1] as int) == b
    }

    /// p is an augmenting path: a residual chain from the source to the
    /// sink.
    pub open spec fn residual_st_path(self, p: Seq<usize>) -> bool {
        self.residual_chain(p, self.spec_source(), self.spec_sink())
    }

    /// p is a residual chain from a to b that climbs one level per edge.
    spec fn level_path(self, p: Seq<usize>, a: int, b: int) -> bool {
        &&& self.residual_chain(p, a, b)
        &&& forall|i: int| 0 <= i < p.len() ==> self.level_edge((#[trigger] p[i]) as int)
    }

    /// No level path leads from w to the sink.
    spec fn dead(self, w: int) -> bool {
        &&& w != self.spec_sink()
        &&& forall|p: Seq<usize>| !(#[trigger] self.level_path(p, w, self.spec_sink()))
    }

    /// The blocking-flow walk may discard this edge: it is saturated, not a
    /// level edge, or it leads to a node no level path leaves.
    spec fn edge_useless(self, id: int) -> bool {
        ||| self.residual(id) < 1
        ||| !self.level_edge(id)
        ||| self.dead(self.edge_to(id))
    }

    /// Every adjacency entry the walk's pointers have passed is either
    /// useless or still carried on the walk's path.
    spec fn walk_scanned(self, path: Seq<usize>) -> bool {
        forall|w: int, k: int|
            0 <= w < self.n() && 0 <= k < self.pointer_of(w)
                ==> self.edge_useless((#[trigger] self.adj(w)[k]) as int)
                    || path.contains(self.adj(w)[k])
    }

    /// Every residual edge leaving w reaches a leveled node.
    spec fn node_scanned(self, w: int) -> bool {
        forall|k: int| 0 <= k < self.adj(w).len()
            ==> self.residual((#[trigger] self.adj(w)[k]) as int) < 1
                || self.leveled(self.edge_to(self.adj(w)[k] as int))
    }

    /// Some residual edge into w comes from a leveled node one level below.
    spec fn has_parent(self, w: int) -> bool {
        exists|id: int|
            0 <= id < self.edge_count()
                && (#[trigger] self.residual(id)) >= 1
                && self.edge_to(id) == w
                && self.leveled(self.edge_from(id))
                && self.level_of(self.edge_from(id)) + 1 == self.level_of(w)
    }

    /// A node whose listed edges are all useless is dead.
    proof fn lemma_exhausted_dead(self, w: int)
        requires
            self.wf(),
            self.adj_complete(),
            0 <= w < self.n(),
            w != self.spec_sink(),
            forall|k: int| 0 <= k < self.adj(w).len()
                ==> self.edge_useless((#[trigger] self.adj(w)[k]) as int),
        ensures
            self.dead(w),
    {
        let sink = self.spec_sink();
        assert forall|p: Seq<usize>| !(#[trigger] self.level_path(p, w, sink)) by {
            if self.level_path(p, w, sink) {
                let e = p[0] as int;
                assert(p[0] < self.edge_count());
                assert(self.edge_from(e) == w);
                assert(self.adj(self.edge_from(e)).contains(e as usize));
                assert((e as usize) == p[0]);
                let k = choose|k: int| 0 <= k < self.adj(w).len() && self.adj(w)[k] == p[0];
                assert(self.edge_useless(e));
                assert(self.dead(self.edge_to(e)));
                if p.len() == 1 {
                    assert(self.edge_to(e) == sink);
                    assert(false);
                } else {
                    let tail = p.subrange(1, p.len() as int);
                    assert(forall|i: int| 0 <= i < tail.len() ==> tail[i] == p[i + 1]);
                    assert(self.level_path(tail, self.edge_to(e), sink));
                    assert(false);
                }
            }
        }
    }

    /// If every leveled node is fully scanned, a residual chain from a
    /// leveled node never escapes the leveled set, so it levels the sink it
    /// ends at.
    proof fn lemma_leveled_blocks(self, p: Seq<usize>, a: int)
        requires
            self.wf(),
            self.adj_complete(),
            forall|w: int| 0 <= w < self.n() && #[trigger] self.leveled(w)
                ==> self.node_scanned(w),
            self.residual_chain(p, a, self.spec_sink()),
            self.leveled(a),
        ensures
            self.leveled(self.spec_sink()),
        decreases p.len(),
    {
        let e = p[0] as int;
        self.lemma_edge_props(e);
        let w = self.edge_from(e);
        assert(w == a);
        assert(self.node_scanned(w));
        assert(self.adj(self.edge_from(e)).contains(e as usize));
        assert((e as usize) == p[0]);
        assert(self.adj(w).contains(p[0]));
        let k = choose|k: int| 0 <= k < self.adj(w).len() && self.adj(w)[k] == p[0];
        assert(self.leveled(self.edge_to(e)));
        if p.len() == 1 {
            assert(self.edge_to(e) == self.spec_sink());
        } else {
            let tail = p.subrange(1, p.len() as int);
            assert(forall|i: int| 0 <= i < tail.len() ==> tail[i] == p[i + 1]);
            assert(self.residual_chain(tail, self.edge_to(e), self.spec_sink()));
            self.lemma_leveled_blocks(tail, self.edge_to(e));
        }
    }

    /// Chains and their residuals depend only on shape and flows.
    proof fn lemma_residual_chain_same(self, other: DinicGraph, p: Seq<usize>, a: int, b: int)
        requires
            self.same_shape(other),
            forall|id: int| 0 <= id < self.edge_count()
                ==> #[trigger] self.edge_flow(id) == other.edge_flow(id),
        ensures
            self.residual_chain(p, a, b) == other.residual_chain(p, a, b),
    {
        assert forall|i: int| 0 <= i < p.len() && p[i] < self.edge_count()
            implies self.edge_from((#[trigger] p[i]) as int) == other.edge_from(p[i] as int)
                && self.edge_to(p[i] as int) == other.edge_to(p[i] as int)
                && self.edge_cap(p[i] as int) == other.edge_cap(p[i] as int)
                && self.edge_flow(p[i] as int) == other.edge_flow(p[i] as int) by {
            let idx = p[i] as int;
            assert(0 <= idx < self.edge_count());
            assert(self.edge_from(idx) == other.edge_from(idx));
            assert(self.edge_flow(idx) == other.edge_flow(idx));
        }
        if self.residual_chain(p, a, b) {
            assert(other.residual_chain(p, a, b));
        }
        if other.residual_chain(p, a, b) {
            assert(self.residual_chain(p, a, b));
        }
    }

    /// Level paths depend only on shape, flows and levels.
    proof fn lemma_level_path_same(self, other: DinicGraph, p: Seq<usize>, x: int, y: int)
        requires
            self.wf(),
            self.same_shape(other),
            forall|id: int| 0 <= id < self.edge_count()
                ==> #[trigger] self.edge_flow(id) == other.edge_flow(id),
            forall|v: int| 0 <= v < self.n()
                ==> #[trigger] self.level_of(v) == other.level_of(v),
        ensures
            self.level_path(p, x, y) == other.level_path(p, x, y),
    {
        self.lemma_residual_chain_same(other, p, x, y);
        assert forall|i: int| 0 <= i < p.len() && p[i] < self.edge_count()
            implies self.level_edge((#[trigger] p[i]) as int)
                == other.level_edge(p[i] as int) by {
            self.lemma_edge_props(p[i] as int);
            assert(self.level_of(self.edge_from(p[i] as int))
                == other.level_of(other.edge_from(p[i] as int)));
            assert(self.level_of(self.edge_to(p[i] as int))
                == other.level_of(other.edge_to(p[i] as int)));
        }
        if self.level_path(p, x, y) {
            assert(other.level_path(p, x, y));
        }
        if other.level_path(p, x, y) {
            assert(self.level_path(p, x, y));
        }
    }

    /// Dead ends depend only on shape, flows and levels.
    proof fn lemma_dead_same(self, other: DinicGraph, y: int)
        requires
            self.wf(),
            self.same_shape(other),
            forall|id: int| 0 <= id < self.edge_count()
                ==> #[trigger] self.edge_flow(id) == other.edge_flow(id),
            forall|v: int| 0 <= v < self.n()
                ==> #[trigger] self.level_of(v) == other.level_of(v),
        ensures
            self.dead(y) == other.dead(y),
    {
        if other.dead(y) {
            assert forall|p: Seq<usize>|
                !(#[trigger] self.level_path(p, y, self.spec_sink())) by {
                self.lemma_level_path_same(other, p, y, self.spec_sink());
                assert(!other.level_path(p, y, other.spec_sink()));
            }
        }
        if self.dead(y) {
            assert forall|p: Seq<usize>|
                !(#[trigger] other.level_path(p, y, other.spec_sink())) by {
                self.lemma_level_path_same(other, p, y, self.spec_sink());
            }
        }
    }

    /// Usefulness of an edge depends only on shape, flows and levels.
    proof fn lemma_useless_same(self, other: DinicGraph, id: int)
        requires
            self.wf(),
            self.same_shape(other),
            0 <= id < self.edge_count(),
            forall|idx: int| 0 <= idx < self.edge_count()
                ==> #[trigger] self.edge_flow(idx) == other.edge_flow(idx),
            forall|v: int| 0 <= v < self.n()
                ==> #[trigger] self.level_of(v) == other.level_of(v),
        ensures
            self.edge_useless(id) == other.edge_useless(id),
    {
        self.lemma_edge_props(id);
        assert(self.edge_cap(id) == other.edge_cap(id));
        assert(self.level_of(self.edge_from(id)) == other.level_of(other.edge_from(id)));
        assert(self.level_of(self.edge_to(id)) == other.level_of(other.edge_to(id)));
        self.lemma_dead_same(other, self.edge_to(id));
    }

    /// Walk the parent edges down to the source: a leveled node other than
    /// the source is reached by a level path from the source.
    proof fn lemma_parent_path(self, v: int) -> (p: Seq<usize>)
        requires
            self.wf(),
            0 <= v < self.n(),
            v != self.spec_source(),
            self.leveled(v),
            self.level_of(self.spec_source()) == 0,
            forall|w: int|
                0 <= w < self.n() && w != self.spec_source() && #[trigger] self.leveled(w)
                    ==> self.level_of(w) >= 1 && self.has_parent(w),
        ensures
            self.level_path(p, self.spec_source(), v),
        decreases self.level_of(v),
    {
        assert(self.has_parent(v));
        let id = choose|id: int|
            0 <= id < self.edge_count()
                && (#[trigger] self.residual(id)) >= 1
                && self.edge_to(id) == v
                && self.leveled(self.edge_from(id))
                && self.level_of(self.edge_from(id)) + 1 == self.level_of(v);
        self.lemma_edge_props(id);
        let from = self.edge_from(id);
        if from == self.spec_source() {
            let p = seq![id as usize];
            assert(p[0] == id as usize);
            assert((id as usize) as int == id);
            assert(self.level_path(p, self.spec_source(), v));
            p
        } else {
            assert(self.level_of(from) >= 1);
            assert(self.level_of(from) < self.level_of(v));
            let q = self.lemma_parent_path(from);
            let p = q.push(id as usize);
            assert(forall|i: int| 0 <= i < q.len() ==> p[i] == q[i]);
            assert(p[p.len() - 1] == id as usize);
            assert((id as usize) as int == id);
            assert(self.level_path(p, self.spec_source(), v));
            p
        }
    }

    /// Levels and pointers are reset, ready for a BFS phase.
    pub closed spec fn cleared(self) -> bool {
        &&& forall|v: int| 0 <= v < self.n() ==> !(#[trigger] self.leveled(v))
        &&& forall|v: int| 0 <= v < self.n() ==> #[trigger] self.pointer_of(v) == 0
    }

    /// Nodes, endpoints, capacities and adjacency agree; flows, levels and
    /// pointers may differ.
    pub open spec fn same_shape(self, other: DinicGraph) -> bool {
        &&& self.n() == other.n()
        &&& self.spec_source() == other.spec_source()
        &&& self.spec_sink() == other.spec_sink()
        &&& self.edge_count() == other.edge_count()
        &&& forall|id: int| 0 <= id < self.edge_count()
            ==> #[trigger] self.edge_from(id) == other.edge_from(id)
                && self.edge_to(id) == other.edge_to(id)
                && self.edge_cap(id) == other.edge_cap(id)
        &&& forall|v: int| 0 <= v < self.n() ==> #[trigger] self.adj(v) == other.adj(v)
    }

    /// Pointer budget of the nodes below v: how many adjacency entries the
    /// current phase may still examine.
    spec fn slack_upto(self, v: int) -> int
        decreases v,
    {
        if v <= 0 {
            0
        } else {
            self.slack_upto(v - 1) + if self.pointer_of(v - 1) <= self.adj(v - 1).len() {
                self.adj(v - 1).len() - self.pointer_of(v - 1)
            } else {
                0
            }
        }
    }

    spec fn slack(self) -> int {
        self.slack_upto(self.n())
    }

    proof fn lemma_slack_nonneg(self, v: int)
        ensures
            self.slack_upto(v) >= 0,
        decreases v,
    {
        if v > 0 {
            self.lemma_slack_nonneg(v - 1);
        }
    }

    /// Advancing one node's pointer by one lowers the budget by one.
    proof fn lemma_slack_update(self, other: DinicGraph, v: int, k: int)
        requires
            0 <= v,
            forall|x: int| 0 <= x < k && x != v
                ==> #[trigger] other.pointer_of(x) == self.pointer_of(x)
                    && other.adj(x) == self.adj(x),
            v < k ==> other.pointer_of(v) == self.pointer_of(v) + 1
                && other.adj(v) == self.adj(v)
                && self.pointer_of(v) < self.adj(v).len(),
        ensures
            other.slack_upto(k) == self.slack_upto(k) - if v < k {
                1int
            } else {
                0int
            },
        decreases k,
    {
        if k > 0 {
            assert forall|x: int| 0 <= x < k - 1 && x != v
                implies #[trigger] other.pointer_of(x) == self.pointer_of(x)
                    && other.adj(x) == self.adj(x) by {}
            self.lemma_slack_update(other, v, k - 1);
            if k - 1 != v {
                assert(other.pointer_of(k - 1) == self.pointer_of(k - 1));
                assert(other.adj(k - 1) == self.adj(k - 1));
            }
        }
    }

    /// The walk state of the blocking-flow search: the levels are untouched,
    /// the flows and the flow total are untouched, and the shape is that of
    /// the starting state.
    spec fn walk_frame(self, g0: DinicGraph) -> bool {
        &&& self.wf()
        &&& self.same_shape(g0)
        &&& self.flow_total() == g0.flow_total()
        &&& forall|v: int| 0 <= v < g0.n()
            ==> #[trigger] self.level_of(v) == g0.level_of(v)
    }

    /// The path of edge ids walked so far: each edge has positive residual,
    /// levels increase by one along it, it starts at the source, and the
    /// current node v closes it.
    spec fn path_ok(self, path: Seq<usize>, v: int) -> bool {
        &&& forall|k: int| 0 <= k < path.len()
            ==> (#[trigger] path[k]) < self.edge_count()
                && self.residual(path[k] as int) >= 1
                && self.level_of(self.edge_from(path[k] as int)) == k
                && self.level_of(self.edge_to(path[k] as int)) == k + 1
                && (k > 0 ==> self.edge_from(path[k] as int)
                    == self.edge_to(path[k - 1] as int))
        &&& path.len() > 0 ==> self.edge_from(path[0] as int) == self.spec_source()
        &&& path.len() > 0 ==> self.adj(self.spec_source()).contains(path[0])
        &&& if path.len() == 0 {
            v == self.spec_source()
        } else {
            v == self.edge_to(path.last() as int)
        }
        &&& 0 <= v < self.n()
        &&& self.level_of(v) == path.len()
    }

    /// id is one of the first k2 path edges or one of their mates.
    spec fn on_path_prefix(path: Seq<usize>, k2: int, id: int) -> bool {
        exists|j: int| 0 <= j < k2
            && ((#[trigger] path[j]) as int == id || Self::mate(path[j] as int) == id)
    }

    /// Distinct positions of a valid path hold distinct edges, and never an
    /// edge and its mate.
    proof fn lemma_path_distinct(self, path: Seq<usize>, v: int, j1: int, j2: int)
        requires
            self.wf(),
            self.path_ok(path, v),
            0 <= j1 < path.len(),
            0 <= j2 < path.len(),
        ensures
            j1 != j2 ==> path[j1] != path[j2],
            path[j1] as int != Self::mate(path[j2] as int),
    {
        self.lemma_edge_props(path[j1] as int);
        self.lemma_edge_props(path[j2] as int);
        if j1 != j2 && path[j1] == path[j2] {
            assert(self.level_of(self.edge_from(path[j1] as int)) == j1);
            assert(false);
        }
        if path[j1] as int == Self::mate(path[j2] as int) {
            // Then from(path[j1]) == to(path[j2]), so j1 == j2 + 1, and the
            // walk would have stepped back along the same pair, sending the
            // level down instead of up.
            assert(self.edge_from(path[j1] as int) == self.edge_to(path[j2] as int));
            assert(j1 == j2 + 1);
            assert(self.edge_to(path[j1] as int) == self.edge_from(path[j2] as int));
            assert(self.level_of(self.edge_to(path[j1] as int)) == j1 + 1);
            assert(self.level_of(self.edge_from(path[j2] as int)) == j2);
            assert(false);
        }
    }

    /// The sum splits off its first element.
    pub(crate) proof fn lemma_sum_flow_split_first(self, ids: Seq<usize>)
        requires
            ids.len() >= 1,
        ensures
            self.sum_flow(ids) == self.edge_flow(ids[0] as int)
                + self.sum_flow(ids.subrange(1, ids.len() as int)),
        decreases ids.len(),
    {
        let tail = ids.subrange(1, ids.len() as int);
        assert(self.sum_flow(ids)
            == self.sum_flow(ids.drop_last()) + self.edge_flow(ids.last() as int));
        if ids.len() == 1 {
            assert(tail =~= Seq::<usize>::empty());
            assert(self.sum_flow(tail) == 0);
            assert(ids.drop_last() =~= Seq::<usize>::empty());
            assert(self.sum_flow(ids.drop_last()) == 0);
            assert(ids.last() == ids[0]);
        } else {
            let rest = ids.drop_last();
            assert(rest[0] == ids[0]);
            self.lemma_sum_flow_split_first(rest);
            assert(tail.drop_last() =~= rest.subrange(1, rest.len() as int));
            assert(tail.last() == ids.last());
            assert(self.sum_flow(tail)
                == self.sum_flow(tail.drop_last()) + self.edge_flow(tail.last() as int));
        }
    }

    /// With nonnegative flows on the listed edges, two distinct listed
    /// positions bound the sum from below.
    pub(crate) proof fn lemma_sum_flow_pair_lower(self, ids: Seq<usize>, i1: int, i2: int)
        requires
            forall|k: int| 0 <= k < ids.len()
                ==> self.edge_flow(#[trigger] ids[k] as int) >= 0,
            0 <= i1 < ids.len(),
            0 <= i2 < ids.len(),
            i1 != i2,
        ensures
            self.sum_flow(ids) >= self.edge_flow(ids[i1] as int) + self.edge_flow(ids[i2] as int),
        decreases ids.len(),
    {
        let rest = ids.drop_last();
        assert(forall|k: int| 0 <= k < rest.len() ==> rest[k] == ids[k]);
        if i1 == ids.len() - 1 {
            self.lemma_sum_flow_single_lower(rest, i2);
        } else if i2 == ids.len() - 1 {
            self.lemma_sum_flow_single_lower(rest, i1);
        } else {
            self.lemma_sum_flow_pair_lower(rest, i1, i2);
        }
    }

    pub(crate) proof fn lemma_sum_flow_single_lower(self, ids: Seq<usize>, i: int)
        requires
            forall|k: int| 0 <= k < ids.len()
                ==> self.edge_flow(#[trigger] ids[k] as int) >= 0,
            0 <= i < ids.len(),
        ensures
            self.sum_flow(ids) >= self.edge_flow(ids[i] as int),
            self.sum_flow(ids) >= 0,
        decreases ids.len(),
    {
        let rest = ids.drop_last();
        assert(forall|k: int| 0 <= k < rest.len() ==> rest[k] == ids[k]);
        assert(self.sum_flow(ids)
            == self.sum_flow(rest) + self.edge_flow(ids.last() as int));
        if ids.len() == 1 {
            assert(rest =~= Seq::<usize>::empty());
            assert(self.sum_flow(rest) == 0);
            assert(ids.last() == ids[i]);
        } else if i == ids.len() - 1 {
            self.lemma_sum_flow_nonneg(rest);
        } else {
            self.lemma_sum_flow_single_lower(rest, i);
        }
    }

    pub(crate) proof fn lemma_sum_flow_nonneg(self, ids: Seq<usize>)
        requires
            forall|k: int| 0 <= k < ids.len()
                ==> self.edge_flow(#[trigger] ids[k] as int) >= 0,
        ensures
            self.sum_flow(ids) >= 0,
        decreases ids.len(),
    {
        if ids.len() > 0 {
            let rest = ids.drop_last();
            assert(forall|k: int| 0 <= k < rest.len() ==> rest[k] == ids[k]);
            self.lemma_sum_flow_nonneg(rest);
        }
    }

    /// With nonpositive flows on the listed edges, two distinct listed
    /// positions bound the sum from above.
    pub(crate) proof fn lemma_sum_flow_pair_upper(self, ids: Seq<usize>, i1: int, i2: int)
        requires
            forall|k: int| 0 <= k < ids.len()
                ==> self.edge_flow(#[trigger] ids[k] as int) <= 0,
            0 <= i1 < ids.len(),
            0 <= i2 < ids.len(),
            i1 != i2,
        ensures
            self.sum_flow(ids) <= self.edge_flow(ids[i1] as int) + self.edge_flow(ids[i2] as int),
        decreases ids.len(),
    {
        let rest = ids.drop_last();
        assert(forall|k: int| 0 <= k < rest.len() ==> rest[k] == ids[k]);
        if i1 == ids.len() - 1 {
            self.lemma_sum_flow_single_upper(rest, i2);
        } else if i2 == ids.len() - 1 {
            self.lemma_sum_flow_single_upper(rest, i1);
        } else {
            self.lemma_sum_flow_pair_upper(rest, i1, i2);
        }
    }

    pub(crate) proof fn lemma_sum_flow_single_upper(self, ids: Seq<usize>, i: int)
        requires
            forall|k: int| 0 <= k < ids.len()
                ==> self.edge_flow(#[trigger] ids[k] as int) <= 0,
            0 <= i < ids.len(),
        ensures
            self.sum_flow(ids) <= self.edge_flow(ids[i] as int),
            self.sum_flow(ids) <= 0,
        decreases ids.len(),
    {
        let rest = ids.drop_last();
        assert(forall|k: int| 0 <= k < rest.len() ==> rest[k] == ids[k]);
        assert(self.sum_flow(ids)
            == self.sum_flow(rest) + self.edge_flow(ids.last() as int));
        if ids.len() == 1 {
            assert(rest =~= Seq::<usize>::empty());
            assert(self.sum_flow(rest) == 0);
            assert(ids.last() == ids[i]);
        } else if i == ids.len() - 1 {
            self.lemma_sum_flow_nonpos(rest);
        } else {
            self.lemma_sum_flow_single_upper(rest, i);
        }
    }

    pub(crate) proof fn lemma_sum_flow_nonpos(self, ids: Seq<usize>)
        requires
            forall|k: int| 0 <= k < ids.len()
                ==> self.edge_flow(#[trigger] ids[k] as int) <= 0,
        ensures
            self.sum_flow(ids) <= 0,
        decreases ids.len(),
    {
        if ids.len() > 0 {
            let rest = ids.drop_last();
            assert(forall|k: int| 0 <= k < rest.len() ==> rest[k] == ids[k]);
            self.lemma_sum_flow_nonpos(rest);
        }
    }

    /// Equal shapes give equal capacity sums at the source.
    proof fn lemma_source_cap_same(self, prev: DinicGraph)
        requires
            self.wf(),
            self.same_shape(prev),
        ensures
            self.source_cap() == prev.source_cap(),
    {
        let src = self.spec_source();
        let ids = self.adj(src);
        assert(self.adj_wf(src));
        assert(self.adj(src) == prev.adj(src));
        assert forall|k: int| 0 <= k < ids.len()
            implies self.edge_cap((#[trigger] ids[k]) as int)
                == prev.edge_cap(ids[k] as int) by {
            assert(self.edge_from(ids[k] as int) == prev.edge_from(ids[k] as int));
        }
        self.lemma_sum_cap_same(prev, ids);
    }

    /// Equal shapes and equal flows give equal flow sums at the source too.
    proof fn lemma_source_sums_same(self, prev: DinicGraph)
        requires
            self.wf(),
            self.same_shape(prev),
            forall|id: int| 0 <= id < self.edge_count()
                ==> #[trigger] self.edge_flow(id) == prev.edge_flow(id),
        ensures
            self.source_flow() == prev.source_flow(),
            self.source_cap() == prev.source_cap(),
    {
        self.lemma_source_cap_same(prev);
        let src = self.spec_source();
        let ids = self.adj(src);
        assert(self.adj_wf(src));
        assert(self.adj(src) == prev.adj(src));
        assert forall|k: int| 0 <= k < ids.len()
            implies self.edge_flow((#[trigger] ids[k]) as int)
                == prev.edge_flow(ids[k] as int) by {}
        self.lemma_sum_flow_same(prev, ids);
    }

    /// Every forward edge with positive flow shows up in the extraction.
    pub proof fn lemma_flow_edges_complete(self, upto: int, id: int)
        requires
            self.wf(),
            0 <= upto <= self.edge_count(),
            upto % 2 == 0,
            0 <= id < upto,
            id % 2 == 0,
            self.edge_flow(id) >= 1,
        ensures
            exists|k: int| 0 <= k < self.flow_edges_upto(upto).len()
                && (#[trigger] self.flow_edges_upto(upto)[k]).0 as int == self.edge_from(id)
                && self.flow_edges_upto(upto)[k].1 as int == self.edge_to(id)
                && self.flow_edges_upto(upto)[k].2 as int == self.edge_flow(id),
        decreases upto,
    {
        let s = self.flow_edges_upto(upto);
        let rest = self.flow_edges_upto(upto - 2);
        if id == upto - 2 {
            self.lemma_edge_props(id);
            assert(s[s.len() - 1] == (
                self.edges[upto - 2].from,
                self.edges[upto - 2].to,
                self.edges[upto - 2].flow,
            ));
            assert((s[s.len() - 1]).0 as int == self.edge_from(id));
        } else {
            self.lemma_flow_edges_complete(upto - 2, id);
            let k = choose|k: int| 0 <= k < rest.len()
                && (#[trigger] rest[k]).0 as int == self.edge_from(id)
                && rest[k].1 as int == self.edge_to(id)
                && rest[k].2 as int == self.edge_flow(id);
            assert((s[k]).0 as int == self.edge_from(id));
        }
    }

    /// Shape agreement is transitive.
    proof fn lemma_same_shape_trans(self, mid: DinicGraph, last: DinicGraph)
        requires
            self.same_shape(mid),
            mid.same_shape(last),
        ensures
            self.same_shape(last),
    {
        assert forall|id: int| 0 <= id < self.edge_count()
            implies #[trigger] self.edge_from(id) == last.edge_from(id)
                && self.edge_to(id) == last.edge_to(id)
                && self.edge_cap(id) == last.edge_cap(id) by {
            assert(self.edge_from(id) == mid.edge_from(id));
            assert(0 <= id < mid.edge_count());
            assert(mid.edge_from(id) == last.edge_from(id));
            assert(mid.edge_to(id) == last.edge_to(id));
            assert(mid.edge_cap(id) == last.edge_cap(id));
        }
        assert forall|v: int| 0 <= v < self.n()
            implies #[trigger] self.adj(v) == last.adj(v) by {
            assert(mid.adj(v) == last.adj(v));
        }
    }

    /// A state that differs from a well-formed one only in flows staying
    /// within the pair invariant, levels, pointers and the flow total is
    /// well-formed again, and its capacity sums are unchanged.
    proof fn lemma_wf_frame(self, other: DinicGraph)
        requires
            self.wf(),
            other.edges@ == self.edges@,
            other.adjacency@ == self.adjacency@,
            other.source == self.source,
            other.sink == self.sink,
            other.level.len() == self.level.len(),
            other.pointer.len() == self.pointer.len(),
            forall|v: int| 0 <= v < other.n()
                ==> #[trigger] other.pointer_of(v) <= other.adj(v).len(),
            0 <= other.flow_total(),
        ensures
            other.wf(),
            other.same_shape(self),
            other.total_cap() == self.total_cap(),
            other.source_cap() == self.source_cap(),
            other.source_flow() == self.source_flow(),
    {
        assert forall|k: int| 0 <= k && 2 * k < other.edge_count()
            implies #[trigger] other.pair_wf(k) by {
            assert(self.pair_wf(k));
        }
        assert forall|v: int| 0 <= v < other.n() implies #[trigger] other.adj_wf(v) by {
            assert(self.adj_wf(v));
        }
        other.lemma_cap_prefix_same(self, other.edge_count());
        other.lemma_sum_cap_same(self, other.adj(other.spec_source()));
        other.lemma_sum_flow_same(self, other.adj(other.spec_source()));
    }

    /// Everything the pair invariant gives for one edge id, spelled out for
    /// the id and its mate.
    pub(crate) proof fn lemma_edge_props(self, id: int)
        requires
            self.wf(),
            0 <= id < self.edge_count(),
        ensures
            0 <= self.edge_from(id) < self.n(),
            0 <= self.edge_to(id) < self.n(),
            0 <= Self::mate(id) < self.edge_count(),
            Self::mate(Self::mate(id)) == id,
            self.edge_from(Self::mate(id)) == self.edge_to(id),
            self.edge_to(Self::mate(id)) == self.edge_from(id),
            self.edge_flow(Self::mate(id)) == -self.edge_flow(id),
            self.edge_cap(id) >= 0,
            self.edge_flow(id) <= self.edge_cap(id),
            self.residual(id) >= 0,
            id % 2 == 0 ==> self.edge_flow(id) >= 0,
            id % 2 == 1 ==> self.edge_flow(id) <= 0,
            self.edge_cap(id) + self.edge_cap(Self::mate(id))
                == self.edge_cap(2 * (id / 2)) ,
            -self.edge_cap(2 * (id / 2)) <= self.edge_flow(id)
                <= self.edge_cap(2 * (id / 2)),
            self.residual(id) <= self.edge_cap(2 * (id / 2)),
    {
        let k = id / 2;
        assert(self.pair_wf(k));
    }

    /// Counts a caller may rely on without seeing the representation.
    pub proof fn lemma_counts(self)
        requires
            self.wf(),
        ensures
            0 <= self.edge_count() <= usize::MAX,
            self.edge_count() % 2 == 0,
            2 <= self.n() < usize::MAX,
            0 <= self.flow_total(),
    {
    }

    /// What the adjacency invariant gives for one node, for callers outside
    /// this module: listed ids are valid edges leaving v, without repeats.
    pub proof fn lemma_adj_parts(self, v: int)
        requires
            self.wf(),
            0 <= v < self.n(),
        ensures
            forall|k: int| 0 <= k < self.adj(v).len()
                ==> (#[trigger] self.adj(v)[k]) < self.edge_count()
                    && self.edge_from(self.adj(v)[k] as int) == v,
            self.adj(v).no_duplicates(),
    {
        assert(self.adj_wf(v));
    }

    /// Capacities accumulate: every single capacity is bounded by the total.
    proof fn lemma_cap_prefix_mono(self, a: int, b: int)
        requires
            self.wf(),
            0 <= a <= b <= self.edge_count(),
        ensures
            self.cap_prefix(a) <= self.cap_prefix(b),
        decreases b - a,
    {
        if a < b {
            self.lemma_cap_prefix_mono(a, b - 1);
            self.lemma_edge_props(b - 1);
        }
    }

    /// Each edge's capacity, flow and residual are bounded by the total
    /// capacity.
    proof fn lemma_edge_total_bounds(self, id: int)
        requires
            self.wf(),
            0 <= id < self.edge_count(),
        ensures
            0 <= self.edge_cap(id) <= self.total_cap(),
            -self.total_cap() <= self.edge_flow(id) <= self.total_cap(),
            0 <= self.residual(id) <= self.total_cap(),
    {
        let k = 2 * (id / 2);
        self.lemma_edge_props(id);
        self.lemma_edge_props(k);
        self.lemma_cap_prefix_mono(0, k);
        self.lemma_cap_prefix_mono(k + 1, self.edge_count());
        assert(self.cap_prefix(k + 1) == self.cap_prefix(k) + self.edge_cap(k));
    }

    /// Two graphs with equal flows on all the listed edges have equal sums.
    proof fn lemma_sum_flow_same(self, other: DinicGraph, ids: Seq<usize>)
        requires
            forall|k: int| 0 <= k < ids.len()
                ==> self.edge_flow(#[trigger] ids[k] as int) == other.edge_flow(ids[k] as int),
        ensures
            self.sum_flow(ids) == other.sum_flow(ids),
        decreases ids.len(),
    {
        if ids.len() > 0 {
            self.lemma_sum_flow_same(other, ids.drop_last());
        }
    }

    /// Two graphs with equal capacities on all the listed edges have equal
    /// sums.
    proof fn lemma_sum_cap_same(self, other: DinicGraph, ids: Seq<usize>)
        requires
            forall|k: int| 0 <= k < ids.len()
                ==> self.edge_cap(#[trigger] ids[k] as int) == other.edge_cap(ids[k] as int),
        ensures
            self.sum_cap(ids) == other.sum_cap(ids),
        decreases ids.len(),
    {
        if ids.len() > 0 {
            self.lemma_sum_cap_same(other, ids.drop_last());
        }
    }

    /// Appending an edge id adds its flow and capacity to the sums.
    proof fn lemma_sum_push(self, ids: Seq<usize>, id: usize)
        ensures
            self.sum_flow(ids.push(id)) == self.sum_flow(ids) + self.edge_flow(id as int),
            self.sum_cap(ids.push(id)) == self.sum_cap(ids) + self.edge_cap(id as int),
    {
        assert(ids.push(id).drop_last() =~= ids);
    }

    /// If between two states only the flow of `id` changed among the listed
    /// edges, and `id` is listed once, the sum shifts by that difference.
    proof fn lemma_sum_flow_update(self, other: DinicGraph, ids: Seq<usize>, id: usize)
        requires
            ids.no_duplicates(),
            ids.contains(id),
            forall|k: int| 0 <= k < ids.len() && ids[k] != id
                ==> self.edge_flow(#[trigger] ids[k] as int) == other.edge_flow(ids[k] as int),
        ensures
            other.sum_flow(ids) == self.sum_flow(ids)
                + other.edge_flow(id as int) - self.edge_flow(id as int),
        decreases ids.len(),
    {
        let rest = ids.drop_last();
        if ids.last() == id {
            assert(forall|k: int| 0 <= k < rest.len() ==> rest[k] == ids[k]);
            assert(!rest.contains(id)) by {
                if rest.contains(id) {
                    let k = choose|k: int| 0 <= k < rest.len() && rest[k] == id;
                    assert(ids[k] == ids[ids.len() - 1]);
                }
            }
            self.lemma_sum_flow_same(other, rest);
        } else {
            assert(rest.contains(id)) by {
                let k = choose|k: int| 0 <= k < ids.len() && ids[k] == id;
                assert(rest[k] == id);
            }
            self.lemma_sum_flow_update(other, rest, id);
        }
    }

    /// Pointwise flow-below-capacity makes the flow sum at most the capacity
    /// sum.
    proof fn lemma_sum_flow_le_cap(self, ids: Seq<usize>)
        requires
            self.wf(),
            forall|k: int| 0 <= k < ids.len() ==> (#[trigger] ids[k]) < self.edge_count(),
        ensures
            self.sum_flow(ids) <= self.sum_cap(ids),
        decreases ids.len(),
    {
        if ids.len() > 0 {
            self.lemma_sum_flow_le_cap(ids.drop_last());
            self.lemma_edge_props(ids.last() as int);
        }
    }

    /// An empty network on n nodes.
    pub fn new(n: usize, source: usize, sink: usize) -> (r: Self)
        requires
            source < n,
            sink < n,
            source != sink,
            n < usize::MAX,
        ensures
            r.wf(),
            r.flow_consistent(),
            r.cleared(),
            r.n() == n,
            r.spec_source() == source,
            r.spec_sink() == sink,
            r.edge_count() == 0,
            r.total_cap() == 0,
            r.flow_total() == 0,
            r.source_cap() == 0,
            r.adj_complete(),
            r.conserving(),
            forall|v: int| 0 <= v < n ==> (#[trigger] r.adj(v)).len() == 0,
    {
        let mut adjacency: Vec<Vec<usize>> = Vec::new();
        let mut level: Vec<usize> = Vec::new();
        let mut pointer: Vec<usize> = Vec::new();
        let mut i: usize = 0;
        while i < n
            invariant
                i <= n,
                adjacency.len() == i,
                level.len() == i,
                pointer.len() == i,
                forall|v: int| 0 <= v < i ==> (#[trigger] adjacency[v])@.len() == 0,
                forall|v: int| 0 <= v < i ==> level[v] == usize::MAX,
                forall|v: int| 0 <= v < i ==> pointer[v] == 0usize,
            decreases n - i,
        {
            adjacency.push(Vec::new());
            level.push(usize::MAX);
            pointer.push(0);
            i += 1;
        }
        let r = DinicGraph {
            flow: 0,
            adjacency,
            edges: Vec::new(),
            level,
            pointer,
            source,
            sink,
        };
        proof {
            assert forall|v: int| 0 <= v < r.n() implies #[trigger] r.adj_wf(v) by {
                assert(r.adj(v) =~= Seq::<usize>::empty());
            }
            assert(r.sum_flow(r.adj(r.spec_source())) == 0);
            assert(r.sum_cap(r.adj(r.spec_source())) == 0);
            assert forall|w: int| 0 <= w < r.n() implies #[trigger] r.node_flow(w) == 0 by {
                assert(r.adj(w) =~= Seq::<usize>::empty());
            }
        }
        r
    }

    /// Clear levels and pointers for the next BFS phase.
    fn reset(&mut self)
        requires
            old(self).wf(),
        ensures
            final(self).wf(),
            final(self).cleared(),
            final(self).same_shape(*old(self)),
            final(self).flow_total() == old(self).flow_total(),
            forall|id: int| 0 <= id < old(self).edge_count()
                ==> final(self).edge_flow(id) == old(self).edge_flow(id),
            final(self).flow_consistent() == old(self).flow_consistent(),
    {
        let n = self.level.len();
        let mut i: usize = 0;
        while i < n
            invariant
                i <= n,
                self.level.len() == n,
                self.pointer.len() == n,
                self.adjacency == old(self).adjacency,
                self.edges == old(self).edges,
                self.flow == old(self).flow,
                self.source == old(self).source,
                self.sink == old(self).sink,
                old(self).wf(),
                n == old(self).n(),
                forall|v: int| 0 <= v < i ==> self.level[v] == usize::MAX,
                forall|v: int| 0 <= v < i ==> self.pointer[v] == 0usize,
            decreases n - i,
        {
            self.level.set(i, usize::MAX);
            self.pointer.set(i, 0);
            i += 1;
        }
        proof {
            let g0 = *old(self);
            let g1 = *self;
            assert forall|v: int| 0 <= v < g1.n() implies #[trigger] g1.adj_wf(v) by {
                assert(g0.adj_wf(v));
            }
            assert forall|k: int| 0 <= k && 2 * k < g1.edge_count()
                implies #[trigger] g1.pair_wf(k) by {
                assert(g0.pair_wf(k));
            }
            g1.lemma_sum_flow_same(g0, g1.adj(g1.spec_source()));
            g1.lemma_sum_cap_same(g0, g1.adj(g1.spec_source()));
            assert(g1.cap_prefix(g1.edge_count()) == g0.cap_prefix(g0.edge_count())) by {
                g1.lemma_cap_prefix_same(g0, g1.edge_count());
            }
        }
    }

    /// Equal capacities give equal prefix sums.
    proof fn lemma_cap_prefix_same(self, other: DinicGraph, k: int)
        requires
            forall|id: int| 0 <= id < k ==> self.edge_cap(id) == other.edge_cap(id),
        ensures
            self.cap_prefix(k) == other.cap_prefix(k),
        decreases k,
    {
        if k > 0 {
            self.lemma_cap_prefix_same(other, k - 1);
        }
    }

    /// Append a forward edge with the given capacity and its zero-capacity
    /// reverse.
    pub fn add_edge(&mut self, from: usize, to: usize, cap: isize)
        requires
            old(self).wf(),
            from < old(self).n(),
            to < old(self).n(),
            0 <= cap,
            old(self).total_cap() + cap <= 0x7fff_ffff,
            old(self).edge_count() + 2 <= usize::MAX,
        ensures
            final(self).wf(),
            final(self).n() == old(self).n(),
            final(self).spec_source() == old(self).spec_source(),
            final(self).spec_sink() == old(self).spec_sink(),
            final(self).edge_count() == old(self).edge_count() + 2,
            final(self).edge_from(old(self).edge_count()) == from,
            final(self).edge_to(old(self).edge_count()) == to,
            final(self).edge_cap(old(self).edge_count()) == cap,
            final(self).edge_flow(old(self).edge_count()) == 0,
            final(self).edge_from(old(self).edge_count() + 1) == to,
            final(self).edge_to(old(self).edge_count() + 1) == from,
            final(self).edge_cap(old(self).edge_count() + 1) == 0,
            final(self).edge_flow(old(self).edge_count() + 1) == 0,
            forall|id: int| 0 <= id < old(self).edge_count()
                ==> final(self).edge_from(id) == old(self).edge_from(id)
                    && final(self).edge_to(id) == old(self).edge_to(id)
                    && final(self).edge_cap(id) == old(self).edge_cap(id)
                    && final(self).edge_flow(id) == old(self).edge_flow(id),
            from != to ==> final(self).adj(from as int)
                == old(self).adj(from as int).push((old(self).edge_count()) as usize),
            from != to ==> final(self).adj(to as int)
                == old(self).adj(to as int).push((old(self).edge_count() + 1) as usize),
            from == to ==> final(self).adj(from as int)
                == old(self).adj(from as int)
                    .push((old(self).edge_count()) as usize)
                    .push((old(self).edge_count() + 1) as usize),
            forall|v: int| 0 <= v < old(self).n() && v != from && v != to
                ==> final(self).adj(v) == old(self).adj(v),
            final(self).total_cap() == old(self).total_cap() + cap,
            final(self).flow_total() == old(self).flow_total(),
            final(self).flow_consistent() == old(self).flow_consistent(),
            final(self).cleared() == old(self).cleared(),
            final(self).source_cap() == old(self).source_cap()
                + if from == old(self).spec_source() { cap as int } else { 0 },
            old(self).adj_complete() ==> final(self).adj_complete(),
            old(self).conserving() ==> final(self).conserving(),
    {
        let m = self.edges.len();
        self.edges.push(Edge { from, to, cap, flow: 0 });
        self.edges.push(Edge { from: to, to: from, cap: 0, flow: 0 });
        self.adjacency[from].push(m);
        self.adjacency[to].push(m + 1);
        proof {
            let g0 = *old(self);
            let g1 = *self;
            let mi = m as int;
            assert forall|k: int| 0 <= k && 2 * k < g1.edge_count()
                implies #[trigger] g1.pair_wf(k) by {
                if 2 * k < mi {
                    assert(g0.pair_wf(k));
                }
            }
            assert forall|v: int| 0 <= v < g1.n() implies #[trigger] g1.adj_wf(v) by {
                assert(g0.adj_wf(v));
                if v == from as int || v == to as int {
                    assert forall|k: int| 0 <= k < g1.adj(v).len()
                        implies (#[trigger] g1.adj(v)[k]) < g1.edge_count()
                            && g1.edge_from(g1.adj(v)[k] as int) == v by {
                    }
                    assert(g1.adj(v).no_duplicates()) by {
                        assert(forall|k: int| 0 <= k < g0.adj(v).len()
                            ==> (#[trigger] g0.adj(v)[k]) < mi);
                    }
                }
            }
            assert forall|v: int| 0 <= v < g1.n() implies
                (#[trigger] g1.leveled(v)) == g0.leveled(v) by {}
            assert forall|v: int| 0 <= v < g1.n() implies
                (#[trigger] g1.pointer_of(v)) == g0.pointer_of(v) by {}
            assert forall|v: int| 0 <= v < g1.n() implies
                (#[trigger] g0.leveled(v)) == g1.leveled(v) by {}
            assert forall|v: int| 0 <= v < g1.n() implies
                (#[trigger] g0.pointer_of(v)) == g1.pointer_of(v) by {}
            assert(g0.cleared() ==> g1.cleared());
            assert(g1.cleared() ==> g0.cleared());
            g1.lemma_cap_prefix_same(g0, mi);
            assert(g1.cap_prefix(mi + 2) == g1.cap_prefix(mi + 1) + g1.edge_cap(mi + 1));
            assert(g1.cap_prefix(mi + 1) == g1.cap_prefix(mi) + g1.edge_cap(mi));
            assert(g1.total_cap() == g0.total_cap() + cap);
            // Source flow and capacity.
            let src = g1.spec_source();
            let old_src_list = g0.adj(src);
            assert(g0.adj_wf(src));
            if from as int != src && to as int != src {
                g1.lemma_sum_flow_same(g0, g1.adj(src));
                g1.lemma_sum_cap_same(g0, g1.adj(src));
            } else {
                g1.lemma_sum_flow_same(g0, old_src_list);
                g1.lemma_sum_cap_same(g0, old_src_list);
                if from as int == src && to as int == src {
                    g1.lemma_sum_push(old_src_list, m);
                    g1.lemma_sum_push(old_src_list.push(m), (m + 1) as usize);
                } else if from as int == src {
                    g1.lemma_sum_push(old_src_list, m);
                } else {
                    g1.lemma_sum_push(old_src_list, (m + 1) as usize);
                }
            }
            if g0.adj_complete() {
                assert forall|id: int| 0 <= id < g1.edge_count()
                    implies #[trigger] g1.adj(g1.edge_from(id)).contains(id as usize) by {
                    if id < mi {
                        g0.lemma_edge_props(id);
                        assert(g0.adj(g0.edge_from(id)).contains(id as usize));
                        let kk = choose|kk: int|
                            0 <= kk < g0.adj(g0.edge_from(id)).len()
                                && g0.adj(g0.edge_from(id))[kk] == id as usize;
                        assert(g1.adj(g1.edge_from(id))[kk] == id as usize);
                    } else if id == mi {
                        let base = g0.adj(from as int).len() as int;
                        assert(g1.adj(from as int)[base] == m);
                    } else {
                        let base = if from == to {
                            g0.adj(to as int).len() as int + 1
                        } else {
                            g0.adj(to as int).len() as int
                        };
                        assert(g1.adj(to as int)[base] == (m + 1) as usize);
                    }
                }
            }
            if g0.conserving() {
                assert forall|w: int|
                    0 <= w < g1.n() && w != g1.spec_source() && w != g1.spec_sink()
                        implies #[trigger] g1.node_flow(w) == 0 by {
                    assert(g0.adj_wf(w));
                    let old_list = g0.adj(w);
                    assert forall|k: int| 0 <= k < old_list.len()
                        implies g1.edge_flow((#[trigger] old_list[k]) as int)
                            == g0.edge_flow(old_list[k] as int) by {}
                    g1.lemma_sum_flow_same(g0, old_list);
                    assert(g0.node_flow(w) == 0);
                    if w == from as int && w == to as int {
                        g1.lemma_sum_push(old_list, m);
                        g1.lemma_sum_push(old_list.push(m), (m + 1) as usize);
                    } else if w == from as int {
                        g1.lemma_sum_push(old_list, m);
                    } else if w == to as int {
                        g1.lemma_sum_push(old_list, (m + 1) as usize);
                    }
                }
            }
        }
    }

    /// Level the residual graph by breadth-first search from the source,
    /// following edges with positive residual; report whether the sink was
    /// reached. On return, every leveled node has been fully scanned (so
    /// nothing residual-reachable from a leveled node is unleveled) and
    /// every leveled node but the source has a parent edge one level below.
    #[verifier::rlimit(100)]
    fn bfs(&mut self) -> (r: bool)
        requires
            old(self).wf(),
            old(self).cleared(),
        ensures
            final(self).wf(),
            final(self).same_shape(*old(self)),
            forall|id: int| 0 <= id < old(self).edge_count()
                ==> final(self).edge_flow(id) == old(self).edge_flow(id),
            final(self).flow_total() == old(self).flow_total(),
            forall|v: int| 0 <= v < old(self).n()
                ==> #[trigger] final(self).pointer_of(v) == 0,
            final(self).level_of(final(self).spec_source()) == 0,
            forall|v: int|
                0 <= v < old(self).n() && v != final(self).spec_source()
                    && #[trigger] final(self).leveled(v)
                    ==> final(self).level_of(v) >= 1,
            forall|v: int| 0 <= v < old(self).n() && #[trigger] final(self).leveled(v)
                ==> final(self).level_of(v) < old(self).n(),
            forall|w: int| 0 <= w < old(self).n() && #[trigger] final(self).leveled(w)
                ==> final(self).node_scanned(w),
            forall|w: int|
                0 <= w < old(self).n() && w != final(self).spec_source()
                    && #[trigger] final(self).leveled(w)
                    ==> final(self).has_parent(w),
            r == final(self).leveled(final(self).spec_sink()),
    {
        let mut queue: VecDeque<usize> = VecDeque::new();
        let src = self.source;
        queue.push_back(src);
        proof {
            assert forall|v: int| 0 <= v < old(self).levels().len()
                implies old(self).levels()[v] == usize::MAX by {
                assert(!old(self).leveled(v));
            }
            lemma_unleveled_all(old(self).levels());
            lemma_unleveled_update(old(self).levels(), src as int, 0);
        }
        self.level.set(src, 0);
        proof {
            assert forall|v: int| 0 <= v < self.n()
                implies #[trigger] self.pointer_of(v) <= self.adj(v).len() by {
                assert(old(self).adj_wf(v));
            }
            old(self).lemma_wf_frame(*self);
            lemma_unleveled_bounds(self.levels());
            assert forall|v: int| 0 <= v < self.n()
                implies #[trigger] self.pointer_of(v) == 0 by {
                assert(old(self).pointer_of(v) == 0);
            }
            assert(queue@[0] == src);
        }
        while queue.len() > 0
            invariant
                self.wf(),
                self.same_shape(*old(self)),
                src == self.spec_source(),
                forall|id: int| 0 <= id < old(self).edge_count()
                    ==> self.edge_flow(id) == old(self).edge_flow(id),
                self.flow_total() == old(self).flow_total(),
                forall|v: int| 0 <= v < self.n() ==> #[trigger] self.pointer_of(v) == 0,
                self.level_of(src as int) == 0,
                forall|v: int| 0 <= v < self.n() && v != src as int && #[trigger] self.leveled(v)
                    ==> self.level_of(v) >= 1,
                forall|v: int| 0 <= v < self.n() && #[trigger] self.leveled(v)
                    ==> self.level_of(v) < self.n() - unleveled_count(self.levels()),
                forall|k: int| 0 <= k < queue@.len()
                    ==> (#[trigger] queue@[k]) < self.n() && self.leveled(queue@[k] as int),
                forall|w: int| 0 <= w < self.n() && #[trigger] self.leveled(w)
                    ==> queue@.contains(w as usize) || self.node_scanned(w),
                forall|w: int|
                    0 <= w < self.n() && w != src as int && #[trigger] self.leveled(w)
                        ==> self.has_parent(w),
                0 <= unleveled_count(self.levels()),
            decreases unleveled_count(self.levels()), queue@.len(),
        {
            let ghost u_head = unleveled_count(self.levels());
            let ghost q_head = queue@.len() as int;
            let ghost q_old = queue@;
            let v = queue.pop_front().unwrap();
            proof {
                assert forall|w: int|
                    0 <= w < self.n() && w != v as int && #[trigger] self.leveled(w)
                        implies queue@.contains(w as usize) || self.node_scanned(w) by {
                    if q_old.contains(w as usize) {
                        let ki = choose|ki: int| 0 <= ki < q_old.len() && q_old[ki] == w as usize;
                        assert(ki != 0);
                        assert(queue@[ki - 1] == w as usize);
                    }
                }
            }
            let row_len = self.adjacency[v].len();
            let mut k: usize = 0;
            while k < row_len
                invariant
                    self.wf(),
                    self.same_shape(*old(self)),
                    src == self.spec_source(),
                    forall|id: int| 0 <= id < old(self).edge_count()
                        ==> self.edge_flow(id) == old(self).edge_flow(id),
                    self.flow_total() == old(self).flow_total(),
                    forall|x: int| 0 <= x < self.n() ==> #[trigger] self.pointer_of(x) == 0,
                    self.level_of(src as int) == 0,
                    forall|x: int|
                        0 <= x < self.n() && x != src as int && #[trigger] self.leveled(x)
                            ==> self.level_of(x) >= 1,
                    forall|x: int| 0 <= x < self.n() && #[trigger] self.leveled(x)
                        ==> self.level_of(x) < self.n() - unleveled_count(self.levels()),
                    forall|j: int| 0 <= j < queue@.len()
                        ==> (#[trigger] queue@[j]) < self.n() && self.leveled(queue@[j] as int),
                    forall|w: int|
                        0 <= w < self.n() && w != v as int && #[trigger] self.leveled(w)
                            ==> queue@.contains(w as usize) || self.node_scanned(w),
                    forall|w: int|
                        0 <= w < self.n() && w != src as int && #[trigger] self.leveled(w)
                            ==> self.has_parent(w),
                    forall|kk: int| 0 <= kk < k
                        ==> self.residual((#[trigger] self.adj(v as int)[kk]) as int) < 1
                            || self.leveled(self.edge_to(self.adj(v as int)[kk] as int)),
                    v < self.n(),
                    self.leveled(v as int),
                    k <= row_len,
                    row_len == self.adj(v as int).len(),
                    unleveled_count(self.levels()) <= u_head,
                    unleveled_count(self.levels()) + queue@.len() == u_head + q_head - 1,
                    0 <= unleveled_count(self.levels()),
                decreases row_len - k,
            {
                proof {
                    assert(self.adj_wf(v as int));
                }
                let id = self.adjacency[v][k];
                proof {
                    self.lemma_edge_total_bounds(id as int);
                    self.lemma_edge_props(id as int);
                }
                let space = self.edges[id].cap - self.edges[id].flow;
                if space >= 1 {
                    let u = self.edges[id].to;
                    if self.level[u] == usize::MAX {
                        let lv = self.level[v];
                        proof {
                            lemma_unleveled_lower(self.levels(), u as int);
                            assert(self.leveled(v as int));
                            assert(lv + 1 < self.n());
                            lemma_unleveled_update(self.levels(), u as int, (lv + 1) as usize);
                        }
                        let ghost pre = *self;
                        let ghost q_pre = queue@;
                        self.level.set(u, lv + 1);
                        queue.push_back(u);
                        proof {
                            assert forall|x: int| 0 <= x < self.n()
                                implies #[trigger] self.pointer_of(x) <= self.adj(x).len() by {
                                assert(pre.adj_wf(x));
                            }
                            pre.lemma_wf_frame(*self);
                            lemma_unleveled_bounds(self.levels());
                            assert forall|x: int| 0 <= x < self.n()
                                implies #[trigger] self.pointer_of(x) == 0 by {
                                assert(pre.pointer_of(x) == 0);
                            }
                            let ghost cnt_pre = unleveled_count(pre.levels());
                            assert(self.levels() =~= pre.levels().update(u as int, (lv + 1) as usize));
                            assert(unleveled_count(self.levels()) == cnt_pre - 1);
                            assert forall|x: int|
                                0 <= x < self.n() && x != src as int && #[trigger] self.leveled(x)
                                    implies self.level_of(x) >= 1 by {
                                if x != u as int {
                                    assert(pre.leveled(x));
                                }
                            }
                            assert forall|x: int| 0 <= x < self.n() && #[trigger] self.leveled(x)
                                implies self.level_of(x)
                                    < self.n() - unleveled_count(self.levels()) by {
                                if x != u as int {
                                    assert(pre.leveled(x));
                                    assert(pre.level_of(x) < pre.n() - cnt_pre);
                                } else {
                                    assert(pre.leveled(v as int));
                                    assert(pre.level_of(v as int) < pre.n() - cnt_pre);
                                }
                            }
                            assert forall|j: int| 0 <= j < queue@.len()
                                implies (#[trigger] queue@[j]) < self.n()
                                    && self.leveled(queue@[j] as int) by {
                                if j < queue@.len() - 1 {
                                    assert(pre.leveled(queue@[j] as int));
                                }
                            }
                            // The new node carries its parent edge; every
                            // other leveled node keeps the one it had.
                            assert(self.residual(id as int) >= 1);
                            assert(self.edge_from(id as int) == v as int);
                            assert(self.level_of(v as int) == lv as int);
                            assert(self.level_of(u as int) == lv + 1);
                            assert(self.has_parent(u as int));
                            assert forall|w: int|
                                0 <= w < self.n() && w != src as int
                                    && #[trigger] self.leveled(w)
                                    implies self.has_parent(w) by {
                                if w != u as int {
                                    assert(pre.leveled(w));
                                    assert(pre.has_parent(w));
                                    let pid = choose|pid: int|
                                        0 <= pid < pre.edge_count()
                                            && (#[trigger] pre.residual(pid)) >= 1
                                            && pre.edge_to(pid) == w
                                            && pre.leveled(pre.edge_from(pid))
                                            && pre.level_of(pre.edge_from(pid)) + 1
                                                == pre.level_of(w);
                                    pre.lemma_edge_props(pid);
                                    assert(pre.edge_from(pid) != u as int);
                                    assert(self.residual(pid) >= 1);
                                    assert(self.level_of(self.edge_from(pid)) + 1
                                        == self.level_of(w));
                                }
                            }
                            // Scanning state: the new node waits in the
                            // queue; everyone else's scan survives the new
                            // level.
                            assert(queue@[queue@.len() - 1] == u);
                            assert forall|w: int|
                                0 <= w < self.n() && w != v as int
                                    && #[trigger] self.leveled(w)
                                    implies queue@.contains(w as usize)
                                        || self.node_scanned(w) by {
                                if w == u as int {
                                    assert(queue@.contains(w as usize));
                                } else {
                                    assert(pre.leveled(w));
                                    if q_pre.contains(w as usize) {
                                        let ki = choose|ki: int|
                                            0 <= ki < q_pre.len() && q_pre[ki] == w as usize;
                                        assert(queue@[ki] == w as usize);
                                    } else {
                                        assert(pre.node_scanned(w));
                                        assert forall|kk: int| 0 <= kk < self.adj(w).len()
                                            implies self.residual(
                                                (#[trigger] self.adj(w)[kk]) as int) < 1
                                                || self.leveled(self.edge_to(
                                                    self.adj(w)[kk] as int)) by {
                                            assert(pre.adj(w) == self.adj(w));
                                            let x = self.adj(w)[kk] as int;
                                            assert(pre.adj(w)[kk] == self.adj(w)[kk]);
                                            assert(self.residual(x) == pre.residual(x));
                                            assert(self.edge_to(x) == pre.edge_to(x));
                                            assert(pre.residual(x) < 1
                                                || pre.leveled(pre.edge_to(x)));
                                            assert(pre.adj_wf(w));
                                            pre.lemma_edge_props(x);
                                            if pre.leveled(pre.edge_to(x)) {
                                                assert(pre.edge_to(x) != u as int);
                                                assert(self.level_of(self.edge_to(x))
                                                    == pre.level_of(pre.edge_to(x)));
                                                assert(self.leveled(self.edge_to(x)));
                                            }
                                        }
                                    }
                                }
                            }
                            assert forall|kk: int| 0 <= kk < k + 1
                                implies self.residual(
                                    (#[trigger] self.adj(v as int)[kk]) as int) < 1
                                    || self.leveled(self.edge_to(
                                        self.adj(v as int)[kk] as int)) by {
                                if kk < k {
                                    assert(pre.adj(v as int) == self.adj(v as int));
                                    let x = self.adj(v as int)[kk] as int;
                                    assert(pre.adj(v as int)[kk] == self.adj(v as int)[kk]);
                                    assert(self.residual(x) == pre.residual(x));
                                    assert(self.edge_to(x) == pre.edge_to(x));
                                    assert(pre.residual(x) < 1
                                        || pre.leveled(pre.edge_to(x)));
                                    assert(pre.adj_wf(v as int));
                                    pre.lemma_edge_props(x);
                                    if pre.leveled(pre.edge_to(x)) {
                                        assert(pre.edge_to(x) != u as int);
                                        assert(self.level_of(self.edge_to(x))
                                            == pre.level_of(pre.edge_to(x)));
                                        assert(self.leveled(self.edge_to(x)));
                                    }
                                } else {
                                    assert(self.adj(v as int)[kk] == id);
                                    assert(self.leveled(u as int));
                                }
                            }
                        }
                    } else {
                        proof {
                            assert(self.adj(v as int)[k as int] == id);
                            assert(self.leveled(self.edge_to(id as int)));
                        }
                    }
                } else {
                    proof {
                        assert(self.adj(v as int)[k as int] == id);
                        assert(self.residual(id as int) < 1);
                    }
                }
                k += 1;
            }
            proof {
                assert forall|w: int| 0 <= w < self.n() && #[trigger] self.leveled(w)
                    implies queue@.contains(w as usize) || self.node_scanned(w) by {
                    if w == v as int {
                        assert(self.node_scanned(v as int));
                    }
                }
            }
        }
        proof {
            assert forall|w: int| 0 <= w < self.n() && #[trigger] self.leveled(w)
                implies self.node_scanned(w) by {
                assert(!queue@.contains(w as usize));
            }
        }
        self.level[self.sink] != usize::MAX
    }

    /// Mates are an involution, so distinct edges have distinct mates.
    proof fn lemma_mate_involution(a: int, c: int)
        ensures
            Self::mate(Self::mate(a)) == a,
            Self::mate(a) == Self::mate(c) ==> a == c,
    {
    }

    /// The path edge at position k2 and its mate are fresh: they are neither
    /// earlier path edges nor mates of earlier path edges.
    proof fn lemma_path_step_fresh(self, path: Seq<usize>, v: int, k2: int)
        requires
            self.wf(),
            self.path_ok(path, v),
            0 <= k2 < path.len(),
        ensures
            forall|j: int| 0 <= j < k2
                ==> path[k2] != (#[trigger] path[j])
                    && path[k2] as int != Self::mate(path[j] as int)
                    && Self::mate(path[k2] as int) != path[j] as int
                    && Self::mate(path[k2] as int) != Self::mate(path[j] as int),
            !Self::on_path_prefix(path, k2, path[k2] as int),
            !Self::on_path_prefix(path, k2, Self::mate(path[k2] as int)),
    {
        assert forall|j: int| 0 <= j < k2
            implies path[k2] != (#[trigger] path[j])
                && path[k2] as int != Self::mate(path[j] as int)
                && Self::mate(path[k2] as int) != path[j] as int
                && Self::mate(path[k2] as int) != Self::mate(path[j] as int) by {
            self.lemma_path_distinct(path, v, k2, j);
            self.lemma_path_distinct(path, v, j, k2);
            Self::lemma_mate_involution(path[k2] as int, path[j] as int);
        }
        if Self::on_path_prefix(path, k2, path[k2] as int) {
            let j = choose|j: int| 0 <= j < k2
                && ((#[trigger] path[j]) as int == path[k2] as int
                    || Self::mate(path[j] as int) == path[k2] as int);
            assert(false);
        }
        if Self::on_path_prefix(path, k2, Self::mate(path[k2] as int)) {
            let j = choose|j: int| 0 <= j < k2
                && ((#[trigger] path[j]) as int == Self::mate(path[k2] as int)
                    || Self::mate(path[j] as int) == Self::mate(path[k2] as int));
            assert(false);
        }
    }

    /// One augment step keeps the walk's flow bookkeeping: relative to the
    /// pre-augment state g1, the first k2+1 path edges carry b more, their
    /// mates b less, and everything else is untouched.
    proof fn lemma_augment_flows(
        g1: DinicGraph,
        pre: DinicGraph,
        gi: DinicGraph,
        path: Seq<usize>,
        k2: int,
        b: int,
    )
        requires
            0 <= k2 < path.len(),
            pre.edge_count() == g1.edge_count(),
            gi.edge_count() == pre.edge_count(),
            g1.edge_count() % 2 == 0,
            forall|k: int| 0 <= k < path.len() ==> (#[trigger] path[k]) < g1.edge_count(),
            forall|j: int| 0 <= j < k2
                ==> path[k2] != (#[trigger] path[j])
                    && path[k2] as int != Self::mate(path[j] as int)
                    && Self::mate(path[k2] as int) != path[j] as int
                    && Self::mate(path[k2] as int) != Self::mate(path[j] as int),
            !Self::on_path_prefix(path, k2, path[k2] as int),
            !Self::on_path_prefix(path, k2, Self::mate(path[k2] as int)),
            forall|idx: int|
                0 <= idx < g1.edge_count() && !Self::on_path_prefix(path, k2, idx)
                    ==> #[trigger] pre.edge_flow(idx) == g1.edge_flow(idx),
            forall|j: int| 0 <= j < k2
                ==> #[trigger] pre.edge_flow(path[j] as int)
                    == g1.edge_flow(path[j] as int) + b,
            forall|j: int| 0 <= j < k2
                ==> #[trigger] pre.edge_flow(Self::mate(path[j] as int))
                    == g1.edge_flow(Self::mate(path[j] as int)) - b,
            gi.edge_flow(path[k2] as int) == pre.edge_flow(path[k2] as int) + b,
            gi.edge_flow(Self::mate(path[k2] as int))
                == pre.edge_flow(Self::mate(path[k2] as int)) - b,
            forall|idx: int|
                0 <= idx < pre.edge_count() && idx != path[k2] as int
                    && idx != Self::mate(path[k2] as int)
                    ==> #[trigger] gi.edge_flow(idx) == pre.edge_flow(idx),
        ensures
            forall|idx: int|
                0 <= idx < g1.edge_count() && !Self::on_path_prefix(path, k2 + 1, idx)
                    ==> #[trigger] gi.edge_flow(idx) == g1.edge_flow(idx),
            forall|j: int| 0 <= j < k2 + 1
                ==> #[trigger] gi.edge_flow(path[j] as int)
                    == g1.edge_flow(path[j] as int) + b,
            forall|j: int| 0 <= j < k2 + 1
                ==> #[trigger] gi.edge_flow(Self::mate(path[j] as int))
                    == g1.edge_flow(Self::mate(path[j] as int)) - b,
    {
        let id = path[k2] as int;
        let rid = Self::mate(id);
        assert forall|idx: int|
            0 <= idx < g1.edge_count() && !Self::on_path_prefix(path, k2 + 1, idx)
                implies #[trigger] gi.edge_flow(idx) == g1.edge_flow(idx) by {
            if idx == id || idx == rid {
                assert(Self::on_path_prefix(path, k2 + 1, idx));
            }
            if Self::on_path_prefix(path, k2, idx) {
                let j = choose|j: int| 0 <= j < k2
                    && ((#[trigger] path[j]) as int == idx
                        || Self::mate(path[j] as int) == idx);
                assert(Self::on_path_prefix(path, k2 + 1, idx));
            }
            assert(pre.edge_flow(idx) == g1.edge_flow(idx));
        }
        assert forall|j: int| 0 <= j < k2 + 1
            implies #[trigger] gi.edge_flow(path[j] as int)
                == g1.edge_flow(path[j] as int) + b by {
            if j < k2 {
                assert(path[j] != path[k2]);
                assert(path[j] as int != rid);
                assert(path[j] < g1.edge_count());
                assert(gi.edge_flow(path[j] as int) == pre.edge_flow(path[j] as int));
                assert(pre.edge_flow(path[j] as int) == g1.edge_flow(path[j] as int) + b);
            }
        }
        assert forall|j: int| 0 <= j < k2 + 1
            implies #[trigger] gi.edge_flow(Self::mate(path[j] as int))
                == g1.edge_flow(Self::mate(path[j] as int)) - b by {
            if j < k2 {
                assert(Self::mate(path[j] as int) != id);
                assert(Self::mate(path[j] as int) != rid);
                assert(path[j] < g1.edge_count());
                assert(0 <= Self::mate(path[j] as int) < g1.edge_count()) by {
                    if path[j] as int % 2 == 0 {
                        assert(Self::mate(path[j] as int) == path[j] + 1);
                        assert((path[j] + 1) % 2 == 1int);
                        assert(path[j] + 1 != g1.edge_count());
                    } else {
                        assert(Self::mate(path[j] as int) == path[j] - 1);
                    }
                }
                assert(gi.edge_flow(Self::mate(path[j] as int))
                    == pre.edge_flow(Self::mate(path[j] as int)));
                assert(pre.edge_flow(Self::mate(path[j] as int))
                    == g1.edge_flow(Self::mate(path[j] as int)) - b);
            }
        }
    }

    /// Raise the flow of one edge by b and lower its reverse to match,
    /// leaving everything else untouched.
    fn augment_pair(&mut self, id: usize, b: isize)
        requires
            old(self).wf(),
            id < old(self).edge_count(),
            1 <= b,
            b <= old(self).residual(id as int),
        ensures
            final(self).wf(),
            final(self).same_shape(*old(self)),
            forall|x: int| 0 <= x < old(self).n()
                ==> #[trigger] final(self).level_of(x) == old(self).level_of(x),
            forall|x: int| 0 <= x < old(self).n()
                ==> #[trigger] final(self).pointer_of(x) == old(self).pointer_of(x),
            final(self).flow_total() == old(self).flow_total(),
            final(self).edge_flow(id as int) == old(self).edge_flow(id as int) + b,
            final(self).edge_flow(Self::mate(id as int))
                == old(self).edge_flow(Self::mate(id as int)) - b,
            forall|idx: int|
                0 <= idx < old(self).edge_count() && idx != id as int
                    && idx != Self::mate(id as int)
                    ==> #[trigger] final(self).edge_flow(idx) == old(self).edge_flow(idx),
            final(self).source_cap() == old(self).source_cap(),
            final(self).total_cap() == old(self).total_cap(),
    {
        proof {
            assert(id % 2 == 0 ==> (id ^ 1) == id + 1) by (bit_vector);
            assert(id % 2 == 1 ==> (id ^ 1) == id - 1) by (bit_vector);
            assert(id % 2 == 0 || id % 2 == 1) by (bit_vector);
            old(self).lemma_edge_props(id as int);
            old(self).lemma_edge_total_bounds(id as int);
            old(self).lemma_edge_total_bounds(Self::mate(id as int));
        }
        let rid = id ^ 1;
        let e = self.edges[id];
        self.edges.set(id, Edge { from: e.from, to: e.to, cap: e.cap, flow: e.flow + b });
        let e2 = self.edges[rid];
        self.edges.set(rid, Edge { from: e2.from, to: e2.to, cap: e2.cap, flow: e2.flow - b });
        proof {
            let pre = *old(self);
            let gi = *self;
            assert(rid as int == Self::mate(id as int));
            assert forall|idx: int| 0 <= idx < gi.edge_count()
                implies #[trigger] gi.edge_from(idx) == pre.edge_from(idx)
                    && gi.edge_to(idx) == pre.edge_to(idx)
                    && gi.edge_cap(idx) == pre.edge_cap(idx) by {}
            assert forall|kk: int| 0 <= kk && 2 * kk < gi.edge_count()
                implies #[trigger] gi.pair_wf(kk) by {
                assert(pre.pair_wf(kk));
            }
            assert forall|x: int| 0 <= x < gi.n() implies #[trigger] gi.adj_wf(x) by {
                assert(pre.adj_wf(x));
            }
            assert forall|x: int| 0 <= x < gi.n()
                implies #[trigger] gi.adj(x) == pre.adj(x) by {}
            gi.lemma_cap_prefix_same(pre, gi.edge_count());
            assert forall|kk: int| 0 <= kk < gi.adj(gi.spec_source()).len()
                implies gi.edge_cap((#[trigger] gi.adj(gi.spec_source())[kk]) as int)
                    == pre.edge_cap(gi.adj(gi.spec_source())[kk] as int) by {
                assert(gi.adj_wf(gi.spec_source()));
            }
            gi.lemma_sum_cap_same(pre, gi.adj(gi.spec_source()));
        }
    }

    /// One blocking-flow walk from the source along the level graph. Returns
    /// the amount pushed onto an augmenting path, or 0 once the phase is
    /// exhausted; the flow leaving the source grows by exactly that amount.
    /// When the walk starts a phase (all pointers 0) and finds nothing, no
    /// level path from source to sink exists at all.
    #[verifier::rlimit(100)]
    fn dfs(&mut self) -> (r: isize)
        requires
            old(self).wf(),
            old(self).adj_complete(),
            old(self).level_of(old(self).spec_source()) == 0,
            forall|v: int|
                0 <= v < old(self).n() && v != old(self).spec_source()
                    && #[trigger] old(self).leveled(v)
                    ==> old(self).level_of(v) >= 1,
            forall|v: int| 0 <= v < old(self).n() && #[trigger] old(self).leveled(v)
                ==> old(self).level_of(v) < old(self).n(),
        ensures
            final(self).wf(),
            final(self).adj_complete(),
            final(self).same_shape(*old(self)),
            forall|v: int| 0 <= v < old(self).n()
                ==> #[trigger] final(self).level_of(v) == old(self).level_of(v),
            final(self).flow_total() == old(self).flow_total(),
            0 <= r,
            final(self).source_flow() == old(self).source_flow() + r,
            forall|w: int|
                0 <= w < old(self).n() && w != old(self).spec_source()
                    && w != old(self).spec_sink()
                    ==> #[trigger] final(self).node_flow(w) == old(self).node_flow(w),
            r == 0 ==> forall|id: int| 0 <= id < old(self).edge_count()
                ==> final(self).edge_flow(id) == old(self).edge_flow(id),
            (forall|w: int| 0 <= w < old(self).n()
                ==> #[trigger] old(self).pointer_of(w) == 0) && r == 0
                ==> final(self).dead(final(self).spec_source()),
    {
        let mut path: Vec<usize> = Vec::new();
        let mut v: usize = self.source;
        loop
            invariant
                self.walk_frame(*old(self)),
                forall|id: int| 0 <= id < old(self).edge_count()
                    ==> #[trigger] self.edge_flow(id) == old(self).edge_flow(id),
                self.path_ok(path@, v as int),
                v < self.n(),
                self.leveled(v as int),
                old(self).wf(),
                old(self).adj_complete(),
                old(self).level_of(old(self).spec_source()) == 0,
                forall|x: int|
                    0 <= x < old(self).n() && x != old(self).spec_source()
                        && #[trigger] old(self).leveled(x)
                        ==> old(self).level_of(x) >= 1,
                forall|x: int| 0 <= x < self.n() && #[trigger] self.leveled(x)
                    ==> self.level_of(x) < self.n(),
                (forall|w: int| 0 <= w < old(self).n()
                    ==> #[trigger] old(self).pointer_of(w) == 0)
                    ==> self.walk_scanned(path@),
            decreases self.slack(), path@.len(),
        {
            if v == self.sink {
                proof {
                    assert(path@.len() > 0);
                    self.lemma_edge_total_bounds(path@[0] as int);
                }
                // The walk reached the sink: push the path's bottleneck
                // residual along it.
                let first = path[0];
                let mut b: isize = self.edges[first].cap - self.edges[first].flow;
                let mut k: usize = 1;
                while k < path.len()
                    invariant
                        self.walk_frame(*old(self)),
                        self.path_ok(path@, v as int),
                        1 <= k <= path@.len(),
                        1 <= b <= 0x7fff_ffff,
                        forall|j: int| 0 <= j < k ==> b <= self.residual(path@[j] as int),
                    decreases path@.len() - k,
                {
                    proof {
                        self.lemma_edge_total_bounds(path@[k as int] as int);
                    }
                    let id = path[k];
                    let space = self.edges[id].cap - self.edges[id].flow;
                    if space < b {
                        b = space;
                    }
                    k += 1;
                }
                let ghost g1 = *self;
                let mut k2: usize = 0;
                while k2 < path.len()
                    invariant
                        self.wf(),
                        self.same_shape(g1),
                        self.flow_total() == g1.flow_total(),
                        forall|x: int| 0 <= x < g1.n()
                            ==> #[trigger] self.level_of(x) == g1.level_of(x),
                        forall|x: int| 0 <= x < g1.n()
                            ==> #[trigger] self.pointer_of(x) == g1.pointer_of(x),
                        g1.walk_frame(*old(self)),
                        g1.path_ok(path@, v as int),
                        k2 <= path@.len(),
                        1 <= b <= 0x7fff_ffff,
                        forall|j: int| 0 <= j < path@.len()
                            ==> b <= g1.residual(path@[j] as int),
                        forall|id: int|
                            0 <= id < g1.edge_count()
                                && !Self::on_path_prefix(path@, k2 as int, id)
                                ==> #[trigger] self.edge_flow(id) == g1.edge_flow(id),
                        forall|j: int| 0 <= j < k2
                            ==> #[trigger] self.edge_flow(path@[j] as int)
                                == g1.edge_flow(path@[j] as int) + b,
                        forall|j: int| 0 <= j < k2
                            ==> #[trigger] self.edge_flow(Self::mate(path@[j] as int))
                                == g1.edge_flow(Self::mate(path@[j] as int)) - b,
                    decreases path@.len() - k2,
                {
                    let id = path[k2];
                    proof {
                        g1.lemma_path_step_fresh(path@, v as int, k2 as int);
                        assert(self.edge_flow(id as int) == g1.edge_flow(id as int));
                        assert(self.edge_flow(Self::mate(id as int))
                            == g1.edge_flow(Self::mate(id as int)));
                        assert(self.edge_from(id as int) == g1.edge_from(id as int));
                        assert(self.residual(id as int) == g1.residual(id as int));
                        g1.lemma_edge_props(id as int);
                    }
                    let ghost pre = *self;
                    self.augment_pair(id, b);
                    proof {
                        Self::lemma_augment_flows(
                            g1, pre, *self, path@, k2 as int, b as int);
                        self.lemma_same_shape_trans(pre, g1);
                        assert forall|x: int| 0 <= x < g1.n()
                            implies #[trigger] self.level_of(x) == g1.level_of(x) by {
                            assert(pre.level_of(x) == g1.level_of(x));
                        }
                        assert forall|x: int| 0 <= x < g1.n()
                            implies #[trigger] self.pointer_of(x) == g1.pointer_of(x) by {
                            assert(pre.pointer_of(x) == g1.pointer_of(x));
                        }
                    }
                    k2 += 1;
                }
                proof {
                    let g2 = *self;
                    let src = g2.spec_source();
                    let srclist = g2.adj(src);
                    assert(g2.adj_wf(src));
                    assert(g1.adj_wf(src));
                    assert(g1.level_of(src) == 0);
                    // Among the edges the augment touched, only the first
                    // path edge leaves the source, and it is the only listed
                    // one whose flow changed.
                    assert forall|k: int| 0 <= k < srclist.len() && srclist[k] != path@[0]
                        implies g2.edge_flow(#[trigger] srclist[k] as int)
                            == g1.edge_flow(srclist[k] as int) by {
                        let x = srclist[k];
                        assert(g1.edge_from(x as int) == src);
                        if Self::on_path_prefix(path@, path@.len() as int, x as int) {
                            let j = choose|j: int| 0 <= j < path@.len()
                                && (path@[j] as int == x as int
                                    || Self::mate(path@[j] as int) == x as int);
                            g1.lemma_edge_props(path@[j] as int);
                            if path@[j] as int == x as int {
                                assert(g1.level_of(g1.edge_from(path@[j] as int)) == j);
                                assert(j == 0);
                                assert(false);
                            } else {
                                assert(g1.edge_from(x as int)
                                    == g1.edge_to(path@[j] as int));
                                assert(g1.level_of(g1.edge_to(path@[j] as int)) == j + 1);
                                assert(false);
                            }
                        }
                    }
                    g1.lemma_sum_flow_update(g2, srclist, path@[0]);
                    assert(g2.edge_flow(path@[0] as int)
                        == g1.edge_flow(path@[0] as int) + b);
                    assert(g2.source_flow() == g1.source_flow() + b);
                    assert(g1.adj(g1.spec_source()) == old(self).adj(old(self).spec_source()));
                    g1.lemma_sum_flow_same(*old(self), g1.adj(g1.spec_source()));
                    g2.lemma_same_shape_trans(g1, *old(self));
                    assert forall|x: int| 0 <= x < old(self).n()
                        implies #[trigger] g2.level_of(x) == old(self).level_of(x) by {
                        assert(g1.level_of(x) == old(self).level_of(x));
                    }
                    // Conservation: for every node the path passed through,
                    // the augment raised one incoming and one outgoing flow
                    // by the same amount.
                    g1.lemma_adj_complete_same(*old(self));
                    g2.lemma_adj_complete_same(g1);
                    g1.lemma_node_flows_same(*old(self));
                    let sink_w = g2.spec_sink();
                    assert(v as int == sink_w);
                    assert forall|w: int| 0 <= w < g2.n() && w != src && w != sink_w
                        implies #[trigger] g2.node_flow(w) == g1.node_flow(w) by {
                        assert(g1.adj_wf(w));
                        assert(g2.adj(w) == g1.adj(w));
                        let ids = g1.adj(w);
                        if exists|j: int| 0 <= j < path@.len()
                            && g1.edge_from(#[trigger] path@[j] as int) == w {
                            let j = choose|j: int| 0 <= j < path@.len()
                                && g1.edge_from(#[trigger] path@[j] as int) == w;
                            assert(g1.level_of(g1.edge_from(path@[j] as int)) == j);
                            if j == 0 {
                                assert(g1.edge_from(path@[0] as int) == src);
                                assert(false);
                            }
                            let a = path@[j];
                            let pm = Self::mate(path@[j - 1] as int);
                            g1.lemma_edge_props(path@[j] as int);
                            g1.lemma_edge_props(path@[j - 1] as int);
                            g1.lemma_path_distinct(path@, v as int, j, j - 1);
                            assert(g1.edge_from(pm) == g1.edge_to(path@[j - 1] as int));
                            assert(g1.edge_to(path@[j - 1] as int)
                                == g1.edge_from(path@[j] as int));
                            assert(g1.adj(g1.edge_from(a as int)).contains(
                                (a as int) as usize));
                            assert((a as int) as usize == a);
                            assert(ids.contains(a));
                            assert(g1.adj(g1.edge_from(pm)).contains(pm as usize));
                            assert(ids.contains(pm as usize));
                            assert(a as int != pm);
                            assert forall|k: int|
                                0 <= k < ids.len() && ids[k] != a && ids[k] != pm as usize
                                    implies g2.edge_flow(#[trigger] ids[k] as int)
                                        == g1.edge_flow(ids[k] as int) by {
                                let x = ids[k];
                                assert(g1.edge_from(x as int) == w);
                                assert(!Self::on_path_prefix(
                                    path@, path@.len() as int, x as int)) by {
                                    if Self::on_path_prefix(path@, path@.len() as int, x as int) {
                                        let jj = choose|jj: int| 0 <= jj < path@.len()
                                            && (path@[jj] as int == x as int
                                                || Self::mate(path@[jj] as int) == x as int);
                                        g1.lemma_edge_props(path@[jj] as int);
                                        if path@[jj] as int == x as int {
                                            assert(g1.level_of(
                                                g1.edge_from(path@[jj] as int)) == jj);
                                            assert(jj == j);
                                            assert(false);
                                        } else {
                                            assert(g1.edge_from(x as int)
                                                == g1.edge_to(path@[jj] as int));
                                            assert(g1.level_of(
                                                g1.edge_to(path@[jj] as int)) == jj + 1);
                                            assert(jj + 1 == j);
                                            assert(false);
                                        }
                                    }
                                }
                            }
                            g1.lemma_sum_flow_update2(g2, ids, a, pm as usize);
                            assert(g2.edge_flow(a as int) == g1.edge_flow(a as int) + b);
                            assert(g2.edge_flow(pm) == g1.edge_flow(pm) - b);
                            assert(g2.node_flow(w) == g2.sum_flow(ids));
                        } else {
                            assert forall|k: int| 0 <= k < ids.len()
                                implies g2.edge_flow(#[trigger] ids[k] as int)
                                    == g1.edge_flow(ids[k] as int) by {
                                let x = ids[k];
                                assert(g1.edge_from(x as int) == w);
                                assert(!Self::on_path_prefix(
                                    path@, path@.len() as int, x as int)) by {
                                    if Self::on_path_prefix(path@, path@.len() as int, x as int) {
                                        let jj = choose|jj: int| 0 <= jj < path@.len()
                                            && (path@[jj] as int == x as int
                                                || Self::mate(path@[jj] as int) == x as int);
                                        g1.lemma_edge_props(path@[jj] as int);
                                        if path@[jj] as int == x as int {
                                            assert(g1.edge_from(path@[jj] as int) == w);
                                            assert(false);
                                        } else {
                                            assert(g1.edge_from(x as int)
                                                == g1.edge_to(path@[jj] as int));
                                            if jj < path@.len() - 1 {
                                                assert(g1.edge_from(path@[jj + 1] as int)
                                                    == g1.edge_to(path@[jj] as int));
                                                assert(false);
                                            } else {
                                                assert(g1.edge_to(path@[jj] as int) == v as int);
                                                assert(false);
                                            }
                                        }
                                    }
                                }
                            }
                            g2.lemma_sum_flow_same(g1, ids);
                            assert(g2.node_flow(w) == g2.sum_flow(ids));
                        }
                    }
                }
                return b;
            }
            let row_len = self.adjacency[v].len();
            let ptr = self.pointer[v];
            if ptr >= row_len {
                proof {
                    assert(self.adj_wf(v as int));
                }
                if path.len() == 0 {
                    proof {
                        self.lemma_sum_flow_same(*old(self), self.adj(self.spec_source()));
                        self.lemma_node_flows_same(*old(self));
                        self.lemma_adj_complete_same(*old(self));
                        if forall|w: int| 0 <= w < old(self).n()
                            ==> #[trigger] old(self).pointer_of(w) == 0 {
                            let src_w = self.spec_source();
                            assert(self.pointer_of(src_w) == self.adj(src_w).len());
                            assert forall|kk: int| 0 <= kk < self.adj(src_w).len()
                                implies self.edge_useless(
                                    (#[trigger] self.adj(src_w)[kk]) as int) by {
                                assert(kk < self.pointer_of(src_w));
                                assert(!path@.contains(self.adj(src_w)[kk]));
                            }
                            self.lemma_exhausted_dead(src_w);
                        }
                    }
                    return 0;
                }
                let ghost w_node = v as int;
                let ghost path_old = path@;
                let id = path.pop().unwrap();
                proof {
                    self.lemma_edge_props(id as int);
                }
                v = self.edges[id].from;
                proof {
                    if path@.len() > 0 {
                        assert(self.edge_from(id as int) == self.edge_to(path@.last() as int));
                    }
                    assert(self.level_of(v as int) == path@.len());
                    assert(self.level_of(v as int) < self.n());
                    assert(self.leveled(v as int));
                    if forall|w: int| 0 <= w < old(self).n()
                        ==> #[trigger] old(self).pointer_of(w) == 0 {
                        self.lemma_adj_complete_same(*old(self));
                        // The abandoned node has examined everything it
                        // offers and none of it worked: it is dead, and so
                        // the popped edge becomes useless.
                        assert forall|kk: int| 0 <= kk < self.adj(w_node).len()
                            implies self.edge_useless(
                                (#[trigger] self.adj(w_node)[kk]) as int) by {
                            assert(self.adj_wf(w_node));
                            assert(kk < self.pointer_of(w_node));
                            let x = self.adj(w_node)[kk];
                            if path_old.contains(x) {
                                let i = choose|i: int|
                                    0 <= i < path_old.len() && path_old[i] == x;
                                assert(self.edge_from(path_old[i] as int) == w_node);
                                assert(self.level_of(
                                    self.edge_from(path_old[i] as int)) == i);
                                assert(self.level_of(w_node) == path_old.len());
                                assert(false);
                            }
                        }
                        self.lemma_exhausted_dead(w_node);
                        assert(self.edge_to(id as int) == w_node);
                        assert forall|w2: int, k2: int|
                            0 <= w2 < self.n() && 0 <= k2 < self.pointer_of(w2)
                                implies self.edge_useless(
                                    (#[trigger] self.adj(w2)[k2]) as int)
                                    || path@.contains(self.adj(w2)[k2]) by {
                            let x = self.adj(w2)[k2];
                            if !self.edge_useless(x as int) {
                                assert(path_old.contains(x));
                                let i = choose|i: int|
                                    0 <= i < path_old.len() && path_old[i] == x;
                                if i == path_old.len() - 1 {
                                    assert(x == id);
                                    assert(self.dead(self.edge_to(x as int)));
                                    assert(false);
                                } else {
                                    assert(path@[i] == x);
                                }
                            }
                        }
                    }
                }
            } else {
                let ghost pre = *self;
                self.pointer.set(v, ptr + 1);
                proof {
                    assert(pre.adj_wf(v as int));
                    assert forall|x: int| 0 <= x < self.n()
                        implies #[trigger] self.pointer_of(x) <= self.adj(x).len() by {
                        assert(pre.adj_wf(x));
                    }
                    pre.lemma_wf_frame(*self);
                    pre.lemma_slack_update(*self, v as int, self.n());
                    self.lemma_slack_nonneg(self.n());
                    self.lemma_same_shape_trans(pre, *old(self));
                    assert forall|x: int| 0 <= x < old(self).n()
                        implies #[trigger] self.level_of(x) == old(self).level_of(x) by {
                        assert(pre.level_of(x) == old(self).level_of(x));
                    }
                    assert forall|x: int| 0 <= x < self.n() && #[trigger] self.leveled(x)
                        implies self.level_of(x) < self.n() by {
                        assert(pre.leveled(x));
                        assert(pre.level_of(x) < pre.n());
                    }
                    assert forall|idx: int| 0 <= idx < old(self).edge_count()
                        implies #[trigger] self.edge_flow(idx) == old(self).edge_flow(idx) by {
                        assert(pre.edge_flow(idx) == old(self).edge_flow(idx));
                    }
                }
                let id = self.adjacency[v][ptr];
                proof {
                    self.lemma_edge_props(id as int);
                    self.lemma_edge_total_bounds(id as int);
                }
                let u = self.edges[id].to;
                let space = self.edges[id].cap - self.edges[id].flow;
                let lu = self.level[u];
                let lv = self.level[v];
                let ghost path_prev = path@;
                let ghost v_prev = v as int;
                proof {
                    if forall|w: int| 0 <= w < old(self).n()
                        ==> #[trigger] old(self).pointer_of(w) == 0 {
                        // Entries scanned before this step keep their
                        // classification: only a pointer moved.
                        assert forall|w2: int, k2: int|
                            0 <= w2 < self.n() && 0 <= k2 < self.pointer_of(w2)
                                && !(w2 == v_prev && k2 == ptr as int)
                                implies self.edge_useless(
                                    (#[trigger] self.adj(w2)[k2]) as int)
                                    || path_prev.contains(self.adj(w2)[k2]) by {
                            assert(pre.adj_wf(w2));
                            assert(k2 < pre.pointer_of(w2));
                            let x = self.adj(w2)[k2];
                            assert(pre.adj(w2)[k2] == x);
                            if pre.edge_useless(x as int) {
                                self.lemma_useless_same(pre, x as int);
                            }
                        }
                    }
                }
                if space >= 1 && lu != usize::MAX && lu > lv && lu - lv == 1 {
                    path.push(id);
                    v = u;
                    proof {
                        assert(self.adj(self.spec_source()).contains(path@[0])) by {
                            if path@.len() == 1 {
                                assert(self.adj(pre.spec_source())[ptr as int] == id);
                            }
                        }
                        if forall|w: int| 0 <= w < old(self).n()
                            ==> #[trigger] old(self).pointer_of(w) == 0 {
                            assert(path@.last() == id);
                            assert(path@.contains(id));
                            assert forall|w2: int, k2: int|
                                0 <= w2 < self.n() && 0 <= k2 < self.pointer_of(w2)
                                    implies self.edge_useless(
                                        (#[trigger] self.adj(w2)[k2]) as int)
                                        || path@.contains(self.adj(w2)[k2]) by {
                                let x = self.adj(w2)[k2];
                                if w2 == v_prev && k2 == ptr as int {
                                    assert(x == id);
                                } else if !self.edge_useless(x as int) {
                                    assert(path_prev.contains(x));
                                    let i = choose|i: int|
                                        0 <= i < path_prev.len() && path_prev[i] == x;
                                    assert(path@[i] == x);
                                }
                            }
                        }
                    }
                } else {
                    proof {
                        if forall|w: int| 0 <= w < old(self).n()
                            ==> #[trigger] old(self).pointer_of(w) == 0 {
                            // The discarded edge is saturated or leaves the
                            // level graph.
                            if space < 1 {
                                assert(self.residual(id as int) < 1);
                            } else {
                                assert(self.edge_from(id as int) == v as int);
                                assert(self.leveled(v as int));
                                assert(self.level_of(v as int) < self.n());
                                assert(self.level_of(v as int) == lv as int);
                                assert(self.level_of(self.edge_to(id as int)) == lu as int);
                                if lu == usize::MAX {
                                    assert(lv + 1 < usize::MAX);
                                    assert(!self.level_edge(id as int));
                                } else {
                                    assert(lu as int != lv as int + 1);
                                    assert(!self.level_edge(id as int));
                                }
                            }
                            assert(self.edge_useless(id as int));
                            assert forall|w2: int, k2: int|
                                0 <= w2 < self.n() && 0 <= k2 < self.pointer_of(w2)
                                    implies self.edge_useless(
                                        (#[trigger] self.adj(w2)[k2]) as int)
                                        || path@.contains(self.adj(w2)[k2]) by {
                                let x = self.adj(w2)[k2];
                                if w2 == v_prev && k2 == ptr as int {
                                    assert(x == id);
                                } else if !self.edge_useless(x as int) {
                                    assert(path_prev.contains(x));
                                }
                            }
                        }
                    }
                }
            }
        }
    }

    /// Run the full Dinic loop to completion and report the max-flow value
    /// found. The flow never decreases, never exceeds the capacity leaving
    /// the source, always equals the flow leaving the source, and is maximal:
    /// on return no augmenting path — no chain of positive-residual edges
    /// from the source to the sink — remains.
    pub fn calculate_flow(&mut self) -> (r: isize)
        requires
            old(self).wf(),
            old(self).flow_consistent(),
            old(self).cleared(),
            old(self).adj_complete(),
        ensures
            final(self).wf(),
            final(self).flow_consistent(),
            final(self).cleared(),
            final(self).adj_complete(),
            final(self).same_shape(*old(self)),
            old(self).conserving() ==> final(self).conserving(),
            r == final(self).flow_total(),
            old(self).flow_total() <= r,
            r <= final(self).source_cap(),
            final(self).source_cap() == old(self).source_cap(),
            forall|p: Seq<usize>| !(#[trigger] final(self).residual_st_path(p)),
            (forall|p: Seq<usize>| !(#[trigger] old(self).residual_st_path(p)))
                ==> r == old(self).flow_total(),
    {
        proof {
            assert(old(self).adj_wf(old(self).spec_source()));
            old(self).lemma_sum_flow_le_cap(old(self).adj(old(self).spec_source()));
        }
        loop
            invariant
                self.wf(),
                self.flow_consistent(),
                self.cleared(),
                self.adj_complete(),
                old(self).conserving() ==> self.conserving(),
                self.same_shape(*old(self)),
                old(self).flow_total() <= self.flow_total(),
                self.flow_total() <= self.source_cap(),
                self.source_cap() == old(self).source_cap(),
                (forall|p: Seq<usize>| !(#[trigger] old(self).residual_st_path(p)))
                    ==> self.flow_total() == old(self).flow_total()
                        && forall|id: int| 0 <= id < old(self).edge_count()
                            ==> #[trigger] self.edge_flow(id) == old(self).edge_flow(id),
            ensures
                self.wf(),
                self.flow_consistent(),
                self.cleared(),
                self.adj_complete(),
                old(self).conserving() ==> self.conserving(),
                self.same_shape(*old(self)),
                old(self).flow_total() <= self.flow_total(),
                self.flow_total() <= self.source_cap(),
                self.source_cap() == old(self).source_cap(),
                forall|p: Seq<usize>| !(#[trigger] self.residual_st_path(p)),
                (forall|p: Seq<usize>| !(#[trigger] old(self).residual_st_path(p)))
                    ==> self.flow_total() == old(self).flow_total(),
            decreases self.source_cap() - self.flow_total(),
        {
            let ghost g_head = *self;
            let reached = self.bfs();
            proof {
                self.lemma_source_sums_same(g_head);
                self.lemma_same_shape_trans(g_head, *old(self));
                self.lemma_adj_complete_same(g_head);
                self.lemma_node_flows_same(g_head);
            }
            if !reached {
                let ghost g_bfs = *self;
                proof {
                    // Every leveled node is fully scanned and the sink is
                    // unleveled, so no residual chain reaches the sink: the
                    // flow is maximal.
                    assert(g_bfs.leveled(g_bfs.spec_source()));
                    assert forall|p: Seq<usize>|
                        !(#[trigger] g_bfs.residual_st_path(p)) by {
                        if g_bfs.residual_st_path(p) {
                            g_bfs.lemma_leveled_blocks(p, g_bfs.spec_source());
                        }
                    }
                }
                self.reset();
                proof {
                    self.lemma_source_sums_same(g_bfs);
                    self.lemma_same_shape_trans(g_bfs, *old(self));
                    self.lemma_adj_complete_same(g_bfs);
                    self.lemma_node_flows_same(g_bfs);
                    if forall|p: Seq<usize>| !(#[trigger] old(self).residual_st_path(p)) {
                        assert forall|id: int| 0 <= id < old(self).edge_count()
                            implies #[trigger] self.edge_flow(id)
                                == old(self).edge_flow(id) by {
                            assert(g_head.edge_flow(id) == old(self).edge_flow(id));
                            assert(g_bfs.edge_flow(id) == g_head.edge_flow(id));
                        }
                    }
                    assert forall|p: Seq<usize>|
                        !(#[trigger] self.residual_st_path(p)) by {
                        self.lemma_residual_chain_same(
                            g_bfs, p, self.spec_source(), self.spec_sink());
                        assert(self.spec_source() == g_bfs.spec_source());
                        assert(self.spec_sink() == g_bfs.spec_sink());
                        assert(!g_bfs.residual_st_path(p));
                    }
                }
                break;
            }
            // The sink is leveled, so walking the parent edges exhibits a
            // level path to it and the first blocking-flow walk of the phase
            // cannot come back empty: the flow strictly grows. In
            // particular, a flow that was already maximal never reaches this
            // point: its BFS fails at once.
            proof {
                if forall|p: Seq<usize>| !(#[trigger] old(self).residual_st_path(p)) {
                    assert forall|id: int| 0 <= id < old(self).edge_count()
                        implies #[trigger] self.edge_flow(id) == old(self).edge_flow(id) by {
                        assert(g_head.edge_flow(id) == old(self).edge_flow(id));
                    }
                    let p0 = self.lemma_parent_path(self.spec_sink());
                    assert(self.residual_st_path(p0));
                    self.lemma_residual_chain_same(
                        *old(self), p0, self.spec_source(), self.spec_sink());
                    assert(old(self).residual_st_path(p0));
                    assert(false);
                }
            }
            let ghost g_b = *self;
            let before = self.flow;
            let first = self.dfs();
            proof {
                self.lemma_source_cap_same(g_b);
                self.lemma_same_shape_trans(g_b, *old(self));
                assert(self.adj_wf(self.spec_source()));
                self.lemma_sum_flow_le_cap(self.adj(self.spec_source()));
                assert forall|x: int|
                    0 <= x < self.n() && x != self.spec_source()
                        && #[trigger] self.leveled(x)
                        implies self.level_of(x) >= 1 by {
                    assert(g_b.leveled(x));
                }
                assert forall|x: int| 0 <= x < self.n() && #[trigger] self.leveled(x)
                    implies self.level_of(x) < self.n() by {
                    assert(g_b.leveled(x));
                    assert(g_b.level_of(x) < g_b.n());
                }
                assert(self.level_of(self.spec_source()) == 0);
                if old(self).conserving() {
                    assert forall|w: int|
                        0 <= w < self.n() && w != self.spec_source()
                            && w != self.spec_sink()
                            implies #[trigger] self.node_flow(w) == 0 by {
                        assert(self.node_flow(w) == g_b.node_flow(w));
                    }
                }
                if first == 0 {
                    self.lemma_source_sums_same(g_b);
                    let p = g_b.lemma_parent_path(g_b.spec_sink());
                    self.lemma_level_path_same(
                        g_b, p, self.spec_source(), self.spec_sink());
                    assert(self.level_path(p, self.spec_source(), self.spec_sink()));
                    assert(self.dead(self.spec_source()));
                    assert(false);
                }
            }
            let ghost g_mid = *self;
            self.flow = self.flow + first;
            proof {
                assert forall|x: int| 0 <= x < self.n()
                    implies #[trigger] self.pointer_of(x) <= self.adj(x).len() by {
                    assert(g_mid.adj_wf(x));
                }
                g_mid.lemma_wf_frame(*self);
                self.lemma_same_shape_trans(g_mid, *old(self));
                self.lemma_adj_complete_same(g_mid);
                self.lemma_node_flows_same(g_mid);
                assert(self.level@ == g_mid.level@);
                assert(self.level_of(self.spec_source()) == 0);
                assert forall|x: int|
                    0 <= x < self.n() && x != self.spec_source()
                        && #[trigger] self.leveled(x)
                        implies self.level_of(x) >= 1 by {
                    assert(g_mid.leveled(x));
                }
                assert forall|x: int| 0 <= x < self.n() && #[trigger] self.leveled(x)
                    implies self.level_of(x) < self.n() by {
                    assert(g_mid.leveled(x));
                    assert(g_mid.level_of(x) < g_mid.n());
                }
            }
            loop
                invariant
                    self.wf(),
                    self.flow_consistent(),
                    self.adj_complete(),
                    old(self).conserving() ==> self.conserving(),
                    self.same_shape(*old(self)),
                    old(self).flow_total() <= self.flow_total(),
                    before as int + 1 <= self.flow_total(),
                    self.flow_total() <= self.source_cap(),
                    self.source_cap() == old(self).source_cap(),
                    self.level_of(self.spec_source()) == 0,
                    forall|x: int|
                        0 <= x < self.n() && x != self.spec_source()
                            && #[trigger] self.leveled(x)
                            ==> self.level_of(x) >= 1,
                    forall|x: int| 0 <= x < self.n() && #[trigger] self.leveled(x)
                        ==> self.level_of(x) < self.n(),
                ensures
                    self.wf(),
                    self.flow_consistent(),
                    self.adj_complete(),
                    old(self).conserving() ==> self.conserving(),
                    self.same_shape(*old(self)),
                    old(self).flow_total() <= self.flow_total(),
                    before as int + 1 <= self.flow_total(),
                    self.flow_total() <= self.source_cap(),
                    self.source_cap() == old(self).source_cap(),
                decreases self.source_cap() - self.flow_total(),
            {
                let ghost g_pre = *self;
                let update = self.dfs();
                proof {
                    self.lemma_source_cap_same(g_pre);
                    self.lemma_same_shape_trans(g_pre, *old(self));
                    assert(self.adj_wf(self.spec_source()));
                    self.lemma_sum_flow_le_cap(self.adj(self.spec_source()));
                    assert forall|x: int|
                        0 <= x < self.n() && x != self.spec_source()
                            && #[trigger] self.leveled(x)
                            implies self.level_of(x) >= 1 by {
                        assert(g_pre.leveled(x));
                    }
                    assert forall|x: int| 0 <= x < self.n() && #[trigger] self.leveled(x)
                        implies self.level_of(x) < self.n() by {
                        assert(g_pre.leveled(x));
                        assert(g_pre.level_of(x) < g_pre.n());
                    }
                    if update == 0 {
                        self.lemma_source_sums_same(g_pre);
                    }
                    assert(self.level_of(self.spec_source()) == 0);
                    if old(self).conserving() {
                        assert forall|w: int|
                            0 <= w < self.n() && w != self.spec_source()
                                && w != self.spec_sink()
                                implies #[trigger] self.node_flow(w) == 0 by {
                            assert(self.node_flow(w) == g_pre.node_flow(w));
                        }
                    }
                }
                if update < 1 {
                    break;
                }
                let ghost g_fur = *self;
                self.flow = self.flow + update;
                proof {
                    assert forall|x: int| 0 <= x < self.n()
                        implies #[trigger] self.pointer_of(x) <= self.adj(x).len() by {
                        assert(g_fur.adj_wf(x));
                    }
                    g_fur.lemma_wf_frame(*self);
                    self.lemma_same_shape_trans(g_fur, *old(self));
                    self.lemma_adj_complete_same(g_fur);
                    self.lemma_node_flows_same(g_fur);
                    assert(self.level@ == g_fur.level@);
                    assert(self.level_of(self.spec_source()) == 0);
                    assert forall|x: int|
                        0 <= x < self.n() && x != self.spec_source()
                            && #[trigger] self.leveled(x)
                            implies self.level_of(x) >= 1 by {
                        assert(g_fur.leveled(x));
                    }
                    assert forall|x: int| 0 <= x < self.n() && #[trigger] self.leveled(x)
                        implies self.level_of(x) < self.n() by {
                        assert(g_fur.leveled(x));
                        assert(g_fur.level_of(x) < g_fur.n());
                    }
                }
            }
            let ghost g_in = *self;
            self.reset();
            proof {
                self.lemma_source_sums_same(g_in);
                self.lemma_same_shape_trans(g_in, *old(self));
                self.lemma_adj_complete_same(g_in);
                self.lemma_node_flows_same(g_in);
            }
        }
        self.flow
    }

    /// The forward edges carrying positive flow, in index order, up to edge
    /// `upto`.
    pub closed spec fn flow_edges_upto(self, upto: int) -> Seq<(usize, usize, isize)>
        decreases upto,
    {
        if upto <= 1 {
            Seq::empty()
        } else {
            let rest = self.flow_edges_upto(upto - 2);
            if self.edges[upto - 2].flow >= 1 {
                rest.push(
                    (self.edges[upto - 2].from, self.edges[upto - 2].to, self.edges[upto - 2].flow),
                )
            } else {
                rest
            }
        }
    }

    /// The triple names a forward edge below `upto` that carries positive
    /// flow.
    pub open spec fn triple_is_flow_edge(self, t: (usize, usize, isize), upto: int) -> bool {
        exists|id: int|
            0 <= id < upto && id % 2 == 0
                && (#[trigger] self.edge_from(id)) == t.0 as int
                && self.edge_to(id) == t.1 as int
                && self.edge_flow(id) == t.2 as int
                && self.edge_flow(id) >= 1
    }

    /// Every extracted triple is a forward edge of the network carrying
    /// positive flow.
    pub proof fn lemma_flow_edges_sound(self, upto: int)
        requires
            self.wf(),
            0 <= upto <= self.edge_count(),
            upto % 2 == 0,
        ensures
            forall|k: int| 0 <= k < self.flow_edges_upto(upto).len()
                ==> self.triple_is_flow_edge(#[trigger] self.flow_edges_upto(upto)[k], upto),
        decreases upto,
    {
        if upto > 0 {
            self.lemma_flow_edges_sound(upto - 2);
            let s = self.flow_edges_upto(upto);
            let rest = self.flow_edges_upto(upto - 2);
            assert forall|k: int| 0 <= k < s.len()
                implies self.triple_is_flow_edge(#[trigger] s[k], upto) by {
                if k < rest.len() {
                    assert(s[k] == rest[k]);
                    assert(self.triple_is_flow_edge(rest[k], upto - 2));
                    let id0 = choose|id: int|
                        0 <= id < upto - 2 && id % 2 == 0
                            && (#[trigger] self.edge_from(id)) == rest[k].0 as int
                            && self.edge_to(id) == rest[k].1 as int
                            && self.edge_flow(id) == rest[k].2 as int
                            && self.edge_flow(id) >= 1;
                    assert(self.edge_from(id0) == s[k].0 as int);
                } else {
                    assert(s[k] == (
                        self.edges[upto - 2].from,
                        self.edges[upto - 2].to,
                        self.edges[upto - 2].flow,
                    ));
                    assert(self.edge_from(upto - 2) == s[k].0 as int);
                }
            }
        }
    }

    /// Collect (from, to, flow) for every forward edge with positive flow;
    /// every such edge appears, and nothing else does.
    pub fn extract_current_flow(&self) -> (r: Vec<(usize, usize, isize)>)
        requires
            self.wf(),
        ensures
            r@ == self.flow_edges_upto(self.edge_count()),
            forall|k: int| 0 <= k < r@.len()
                ==> self.triple_is_flow_edge(#[trigger] r@[k], self.edge_count()),
            forall|id: int|
                0 <= id < self.edge_count() && id % 2 == 0
                    && #[trigger] self.edge_flow(id) >= 1
                    ==> exists|k: int|
                        0 <= k < self.flow_edges_upto(self.edge_count()).len()
                            && (#[trigger] self.flow_edges_upto(self.edge_count())[k]).0 as int
                                == self.edge_from(id)
                            && self.flow_edges_upto(self.edge_count())[k].1 as int
                                == self.edge_to(id)
                            && self.flow_edges_upto(self.edge_count())[k].2 as int
                                == self.edge_flow(id),
    {
        proof {
            self.lemma_counts();
            self.lemma_flow_edges_sound(self.edge_count());
            assert forall|id: int|
                0 <= id < self.edge_count() && id % 2 == 0
                    && #[trigger] self.edge_flow(id) >= 1
                    implies exists|k: int|
                        0 <= k < self.flow_edges_upto(self.edge_count()).len()
                            && (#[trigger] self.flow_edges_upto(self.edge_count())[k]).0 as int
                                == self.edge_from(id)
                            && self.flow_edges_upto(self.edge_count())[k].1 as int
                                == self.edge_to(id)
                            && self.flow_edges_upto(self.edge_count())[k].2 as int
                                == self.edge_flow(id) by {
                self.lemma_flow_edges_complete(self.edge_count(), id);
            }
        }
        let mut r: Vec<(usize, usize, isize)> = Vec::new();
        let mut id: usize = 0;
        while id < self.edges.len()
            invariant
                self.wf(),
                id % 2 == 0,
                id <= self.edges.len(),
                r@ == self.flow_edges_upto(id as int),
            decreases self.edges.len() - id,
        {
            let e = &self.edges[id];
            if e.flow >= 1 {
                r.push((e.from, e.to, e.flow));
            }
            id += 2;
        }
        r
    }

    /// The same listing as `extract_current_flow`; the caller filters it.
    pub fn current_flow(&self) -> (r: Vec<(usize, usize, isize)>)
        requires
            self.wf(),
        ensures
            r@ == self.flow_edges_upto(self.edge_count()),
            forall|k: int| 0 <= k < r@.len()
                ==> self.triple_is_flow_edge(#[trigger] r@[k], self.edge_count()),
    {
        self.extract_current_flow()
    }
}

} // verus!
