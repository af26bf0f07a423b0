//! Bipartite input graph and permutation matchings.
//!
//! A match is an ordered list of exactly n edges whose left and right
//! projections are both permutations of [0, n). A match need not be contained
//! in the graph; off-graph edges are merely penalised by the sampler.

use crate::dinic::DinicGraph;
use vstd::prelude::*;

verus! {

/// Number of true entries.
spec fn count_true(s: Seq<bool>) -> int
    decreases s.len(),
{
    if s.len() == 0 {
        0
    } else {
        count_true(s.drop_last()) + if s.last() {
            1int
        } else {
            0int
        }
    }
}

proof fn lemma_count_true_bounds(s: Seq<bool>)
    ensures
        0 <= count_true(s) <= s.len(),
    decreases s.len(),
{
    if s.len() > 0 {
        lemma_count_true_bounds(s.drop_last());
    }
}

proof fn lemma_count_true_set(s: Seq<bool>, j: int)
    requires
        0 <= j < s.len(),
        !s[j],
    ensures
        count_true(s.update(j, true)) == count_true(s) + 1,
    decreases s.len(),
{
    if j == s.len() - 1 {
        assert(s.update(j, true).drop_last() =~= s.drop_last());
    } else {
        assert(s.update(j, true).drop_last() =~= s.drop_last().update(j, true));
        lemma_count_true_set(s.drop_last(), j);
    }
}

/// `s` lists each value of [0, n) exactly once.
pub open spec fn is_perm_of(s: Seq<usize>, n: int) -> bool {
    &&& s.len() == n
    &&& forall|k: int| 0 <= k < n ==> s[k] < n
    &&& forall|k1: int, k2: int|
        0 <= k1 < n && 0 <= k2 < n && k1 != k2 ==> s[k1] != s[k2]
}

/// The flow network holds a unit-capacity forward edge from u2 to node w.
spec fn unit_edge_for(g: DinicGraph, u2: int, w: int) -> bool {
    exists|id: int|
        0 <= id < g.edge_count() && id % 2 == 0
            && (#[trigger] g.edge_from(id)) == u2
            && g.edge_to(id) == w
            && g.edge_cap(id) == 1
}

/// The flow network carries a unit of flow from left vertex u2 to right
/// vertex v2.
spec fn flow_edge_for(g: DinicGraph, u2: int, v2: int, size: int) -> bool {
    exists|id: int|
        0 <= id < g.edge_count() && id % 2 == 0
            && (#[trigger] g.edge_from(id)) == u2
            && g.edge_to(id) == v2 + size
            && g.edge_flow(id) >= 1
}

/// The structural facts of the bipartite build that the counting arguments
/// lean on: fixed unit edges 4x (source to x) and 4x+2 (x+size to sink),
/// each left list headed by the reverse 4x+1 with even unit edges behind it,
/// each right list headed by 4y+2 with reverse edges behind it.
spec fn bipartite_shape(g: DinicGraph, size: int) -> bool {
    &&& g.n() == 2 * size + 2
    &&& g.spec_source() == 2 * size
    &&& g.spec_sink() == 2 * size + 1
    &&& g.edge_count() >= 4 * size
    &&& forall|x: int| 0 <= x < size
        ==> g.edge_from(#[trigger] (4 * x)) == 2 * size
            && g.edge_to(4 * x) == x
            && g.edge_cap(4 * x) == 1
            && g.edge_from(4 * x + 2) == x + size
            && g.edge_to(4 * x + 2) == 2 * size + 1
            && g.edge_cap(4 * x + 2) == 1
    &&& forall|x: int| 0 <= x < size
        ==> (#[trigger] g.adj(x)).len() >= 1 && g.adj(x)[0] as int == 4 * x + 1
    &&& forall|x: int, kk: int|
        0 <= x < size && 1 <= kk < g.adj(x).len()
            ==> ((#[trigger] g.adj(x)[kk]) as int) % 2 == 0
                && g.edge_cap(g.adj(x)[kk] as int) == 1
                && size <= g.edge_to(g.adj(x)[kk] as int) < 2 * size
    &&& forall|y: int| 0 <= y < size
        ==> (#[trigger] g.adj(size + y)).len() >= 1
            && g.adj(size + y)[0] as int == 4 * y + 2
    &&& forall|y: int, kk: int|
        0 <= y < size && 1 <= kk < g.adj(size + y).len()
            ==> ((#[trigger] g.adj(size + y)[kk]) as int) % 2 == 1
}

/// Two flow-carrying forward edges leaving the same left vertex coincide:
/// the unit source edge admits one unit through that vertex.
proof fn lemma_left_unique(g: DinicGraph, size: int, e1: int, e2: int)
    requires
        g.wf(),
        g.adj_complete(),
        g.conserving(),
        bipartite_shape(g, size),
        0 < size,
        0 <= e1 < g.edge_count(),
        0 <= e2 < g.edge_count(),
        e1 % 2 == 0,
        e2 % 2 == 0,
        g.edge_flow(e1) >= 1,
        g.edge_flow(e2) >= 1,
        g.edge_from(e1) == g.edge_from(e2),
        0 <= g.edge_from(e1) < size,
    ensures
        e1 == e2,
{
    if e1 != e2 {
        let x = g.edge_from(e1);
        let ids = g.adj(x);
        g.lemma_counts();
        g.lemma_adj_parts(x);
        g.lemma_edge_props(e1);
        g.lemma_edge_props(e2);
        assert((e1 as usize) as int == e1);
        assert((e2 as usize) as int == e2);
        assert(g.adj(g.edge_from(e1)).contains(e1 as usize));
        assert(g.adj(g.edge_from(e2)).contains(e2 as usize));
        assert(ids.contains(e1 as usize));
        assert(ids.contains(e2 as usize));
        let p1 = choose|p1: int| 0 <= p1 < ids.len() && ids[p1] == e1 as usize;
        let p2 = choose|p2: int| 0 <= p2 < ids.len() && ids[p2] == e2 as usize;
        assert((ids[p1] as int) == e1);
        assert((ids[p2] as int) == e2);
        assert(p1 != p2);
        assert(e1 != 4 * x + 1 && e2 != 4 * x + 1);
        assert(p1 >= 1 && p2 >= 1) by {
            assert(ids[0] as int == 4 * x + 1);
            assert((ids[p1] as int) == e1);
            assert((ids[p2] as int) == e2);
        }
        let suffix = ids.subrange(1, ids.len() as int);
        assert(forall|kk: int| 0 <= kk < suffix.len() ==> suffix[kk] == ids[kk + 1]);
        assert forall|kk: int| 0 <= kk < suffix.len()
            implies g.edge_flow(#[trigger] suffix[kk] as int) >= 0 by {
            g.lemma_edge_props(suffix[kk] as int);
        }
        g.lemma_sum_flow_pair_lower(suffix, p1 - 1, p2 - 1);
        assert(g.sum_flow(suffix) >= 2);
        g.lemma_sum_flow_split_first(ids);
        assert(g.node_flow(x) == 0);
        assert(ids[0] as int == 4 * x + 1);
        g.lemma_edge_props(4 * x);
        assert(g.edge_flow(4 * x + 1) == -g.edge_flow(4 * x));
        assert(g.edge_flow(4 * x) <= g.edge_cap(4 * x));
        assert(false);
    }
}

/// Two flow-carrying forward edges into the same right vertex coincide: the
/// unit sink edge admits one unit through that vertex.
proof fn lemma_right_unique(g: DinicGraph, size: int, e1: int, e2: int)
    requires
        g.wf(),
        g.adj_complete(),
        g.conserving(),
        bipartite_shape(g, size),
        0 < size,
        0 <= e1 < g.edge_count(),
        0 <= e2 < g.edge_count(),
        e1 % 2 == 0,
        e2 % 2 == 0,
        g.edge_flow(e1) >= 1,
        g.edge_flow(e2) >= 1,
        g.edge_to(e1) == g.edge_to(e2),
        size <= g.edge_to(e1) < 2 * size,
    ensures
        e1 == e2,
{
    if e1 != e2 {
        let w = g.edge_to(e1);
        let y = w - size;
        let ids = g.adj(w);
        assert(w == size + y);
        assert(g.adj(size + y) == ids);
        assert(g.adj(size + y).len() >= 1);
        assert(g.adj(size + y)[0] as int == 4 * y + 2);
        g.lemma_adj_parts(w);
        g.lemma_edge_props(e1);
        g.lemma_edge_props(e2);
        let m1 = DinicGraph::mate(e1);
        let m2 = DinicGraph::mate(e2);
        assert(m1 == e1 + 1 && m2 == e2 + 1);
        assert(g.edge_from(m1) == w && g.edge_from(m2) == w);
        assert(g.edge_flow(m1) == -g.edge_flow(e1));
        assert(g.edge_flow(m2) == -g.edge_flow(e2));
        g.lemma_counts();
        assert((m1 as usize) as int == m1);
        assert((m2 as usize) as int == m2);
        assert(g.adj(g.edge_from(m1)).contains(m1 as usize));
        assert(g.adj(g.edge_from(m2)).contains(m2 as usize));
        assert(ids.contains(m1 as usize));
        assert(ids.contains(m2 as usize));
        let p1 = choose|p1: int| 0 <= p1 < ids.len() && ids[p1] == m1 as usize;
        let p2 = choose|p2: int| 0 <= p2 < ids.len() && ids[p2] == m2 as usize;
        assert((ids[p1] as int) == m1);
        assert((ids[p2] as int) == m2);
        assert(p1 != p2);
        assert(m1 != 4 * y + 2 && m2 != 4 * y + 2);
        assert(p1 >= 1 && p2 >= 1) by {
            assert(ids[0] as int == 4 * y + 2);
            assert((ids[p1] as int) == m1);
            assert((ids[p2] as int) == m2);
        }
        let suffix = ids.subrange(1, ids.len() as int);
        assert(forall|kk: int| 0 <= kk < suffix.len() ==> suffix[kk] == ids[kk + 1]);
        assert forall|kk: int| 0 <= kk < suffix.len()
            implies g.edge_flow(#[trigger] suffix[kk] as int) <= 0 by {
            assert((g.adj(size + y)[kk + 1] as int) % 2 == 1);
            g.lemma_edge_props(suffix[kk] as int);
        }
        g.lemma_sum_flow_pair_upper(suffix, p1 - 1, p2 - 1);
        assert(g.sum_flow(suffix) <= -2);
        g.lemma_sum_flow_split_first(ids);
        assert(g.node_flow(w) == 0);
        assert(ids[0] as int == 4 * y + 2);
        g.lemma_edge_props(4 * y + 2);
        assert(g.edge_flow(4 * y + 2) <= g.edge_cap(4 * y + 2));
        assert(false);
    }
}

/// A left vertex with no flow-carrying forward edge draws nothing from the
/// source.
proof fn lemma_left_empty(g: DinicGraph, size: int, x: int)
    requires
        g.wf(),
        g.adj_complete(),
        g.conserving(),
        bipartite_shape(g, size),
        0 < size,
        0 <= x < size,
        forall|e: int|
            0 <= e < g.edge_count() && e % 2 == 0 && #[trigger] g.edge_from(e) == x
                ==> g.edge_flow(e) <= 0,
    ensures
        g.edge_flow(4 * x) == 0,
{
    let ids = g.adj(x);
    g.lemma_adj_parts(x);
    let suffix = ids.subrange(1, ids.len() as int);
    assert(forall|kk: int| 0 <= kk < suffix.len() ==> suffix[kk] == ids[kk + 1]);
    assert forall|kk: int| 0 <= kk < suffix.len()
        implies g.edge_flow(#[trigger] suffix[kk] as int) == 0 by {
        g.lemma_edge_props(suffix[kk] as int);
        assert(g.edge_from(suffix[kk] as int) == x);
        assert((suffix[kk] as int) % 2 == 0);
        assert(g.edge_flow(suffix[kk] as int) <= 0);
    }
    g.lemma_sum_flow_nonneg(suffix);
    g.lemma_sum_flow_nonpos(suffix);
    g.lemma_sum_flow_split_first(ids);
    assert(g.node_flow(x) == 0);
    assert(ids[0] as int == 4 * x + 1);
    g.lemma_edge_props(4 * x);
    assert(g.edge_flow(4 * x + 1) == -g.edge_flow(4 * x));
}

/// A right vertex that no flow-carrying forward edge enters sends nothing to
/// the sink.
proof fn lemma_right_empty(g: DinicGraph, size: int, y: int)
    requires
        g.wf(),
        g.adj_complete(),
        g.conserving(),
        bipartite_shape(g, size),
        0 < size,
        0 <= y < size,
        forall|e: int|
            0 <= e < g.edge_count() && e % 2 == 0
                && #[trigger] g.edge_to(e) == size + y
                ==> g.edge_flow(e) <= 0,
    ensures
        g.edge_flow(4 * y + 2) == 0,
{
    let w = size + y;
    let ids = g.adj(w);
    assert(g.adj(size + y) == ids);
    assert(g.adj(size + y).len() >= 1);
    assert(g.adj(size + y)[0] as int == 4 * y + 2);
    g.lemma_adj_parts(w);
    let suffix = ids.subrange(1, ids.len() as int);
    assert(forall|kk: int| 0 <= kk < suffix.len() ==> suffix[kk] == ids[kk + 1]);
    assert forall|kk: int| 0 <= kk < suffix.len()
        implies g.edge_flow(#[trigger] suffix[kk] as int) == 0 by {
        assert((g.adj(size + y)[kk + 1] as int) % 2 == 1);
        let e = suffix[kk] as int;
        g.lemma_edge_props(e);
        assert(e % 2 == 1);
        let me = DinicGraph::mate(e);
        assert(me == e - 1);
        g.lemma_edge_props(me);
        assert(me % 2 == 0);
        assert(g.edge_from(e) == w);
        assert(g.edge_to(me) == g.edge_from(e));
        assert(g.edge_flow(me) <= 0);
        assert(g.edge_flow(me) >= 0);
        assert(g.edge_flow(e) == -g.edge_flow(me));
    }
    g.lemma_sum_flow_nonneg(suffix);
    g.lemma_sum_flow_nonpos(suffix);
    g.lemma_sum_flow_split_first(ids);
    assert(g.node_flow(w) == 0);
    assert(ids[0] as int == 4 * y + 2);
    g.lemma_edge_props(4 * y + 2);
    assert(g.edge_flow(4 * y + 3) == -g.edge_flow(4 * y + 2));
}

/// In the settled network, every edge of the input graph touches the kept
/// matching: were (uu, vv) free on both sides, the three unit edges through
/// it would still form an augmenting path, which the flow run ruled out.
#[verifier::rlimit(100)]
proof fn lemma_edge_covered(
    g: DinicGraph,
    gr: Graph,
    es: Seq<(usize, usize)>,
    seen_u: Seq<bool>,
    seen_v: Seq<bool>,
    listing: Seq<(usize, usize, isize)>,
    uu: usize,
    vv: usize,
)
    requires
        g.wf(),
        g.adj_complete(),
        g.conserving(),
        gr.wf(),
        bipartite_shape(g, gr.size as int),
        0 < gr.size,
        forall|p: Seq<usize>| !(#[trigger] g.residual_st_path(p)),
        uu < gr.size,
        vv < gr.size,
        gr.has_edge(uu as int, vv as int),
        seen_u.len() == gr.size,
        seen_v.len() == gr.size,
        forall|j: int| 0 <= j < es.len()
            ==> flow_edge_for(g, (#[trigger] es[j]).0 as int, es[j].1 as int, gr.size as int),
        forall|x: int| 0 <= x < gr.size && #[trigger] seen_u[x]
            ==> exists|j: int| 0 <= j < es.len() && (#[trigger] es[j]).0 as int == x,
        forall|y: int| 0 <= y < gr.size && #[trigger] seen_v[y]
            ==> exists|j: int| 0 <= j < es.len() && (#[trigger] es[j]).1 as int == y,
        forall|t2: int|
            0 <= t2 < listing.len() && (#[trigger] listing[t2]).0 < gr.size
                ==> seen_u[listing[t2].0 as int]
                    || seen_v[listing[t2].1 as int - gr.size],
        forall|id: int|
            0 <= id < g.edge_count() && id % 2 == 0
                && #[trigger] g.edge_flow(id) >= 1
                ==> exists|k: int|
                    0 <= k < listing.len()
                        && (#[trigger] listing[k]).0 as int == g.edge_from(id)
                        && listing[k].1 as int == g.edge_to(id)
                        && listing[k].2 as int == g.edge_flow(id),
        forall|id: int|
            0 <= id < g.edge_count() && id % 2 == 0
                && #[trigger] g.edge_from(id) < gr.size
                ==> gr.size <= g.edge_to(id) < 2 * gr.size,
        forall|id: int|
            0 <= id < g.edge_count() && id % 2 == 0
                && gr.size <= #[trigger] g.edge_to(id) < 2 * gr.size
                ==> g.edge_from(id) < gr.size,
        forall|u2: int, j: int|
            0 <= u2 < gr.size && 0 <= j < (gr.edges[u2])@.len()
                ==> unit_edge_for(g, u2, (#[trigger] (gr.edges[u2])@[j]) + gr.size),
    ensures
        (exists|j: int| 0 <= j < es.len() && (#[trigger] es[j]).0 == uu)
            || (exists|j: int| 0 <= j < es.len() && (#[trigger] es[j]).1 == vv),
{
    let size = gr.size as int;
    if !(exists|j: int| 0 <= j < es.len() && (#[trigger] es[j]).0 == uu)
        && !(exists|j: int| 0 <= j < es.len() && (#[trigger] es[j]).1 == vv) {
        assert(!seen_u[uu as int]) by {
            if seen_u[uu as int] {
                let j = choose|j: int|
                    0 <= j < es.len() && (#[trigger] es[j]).0 as int == uu as int;
                assert(es[j].0 == uu);
            }
        }
        assert(!seen_v[vv as int]) by {
            if seen_v[vv as int] {
                let j = choose|j: int|
                    0 <= j < es.len() && (#[trigger] es[j]).1 as int == vv as int;
                assert(es[j].1 == vv);
            }
        }
        // No flow leaves uu: a flowing edge would have been listed, and its
        // right endpoint's keeper would clash with per-vertex uniqueness.
        assert forall|e: int|
            0 <= e < g.edge_count() && e % 2 == 0 && #[trigger] g.edge_from(e) == uu as int
                implies g.edge_flow(e) <= 0 by {
            if g.edge_flow(e) >= 1 {
                assert(gr.size <= g.edge_to(e) < 2 * gr.size);
                let k = choose|k: int|
                    0 <= k < listing.len()
                        && (#[trigger] listing[k]).0 as int == g.edge_from(e)
                        && listing[k].1 as int == g.edge_to(e)
                        && listing[k].2 as int == g.edge_flow(e);
                assert(listing[k].0 as int == uu as int);
                assert(seen_u[listing[k].0 as int]
                    || seen_v[listing[k].1 as int - gr.size]);
                let yv = g.edge_to(e) - size;
                assert(seen_v[yv]);
                let j2 = choose|j2: int|
                    0 <= j2 < es.len() && (#[trigger] es[j2]).1 as int == yv;
                assert(flow_edge_for(g, es[j2].0 as int, es[j2].1 as int, size));
                let id2 = choose|id2: int|
                    0 <= id2 < g.edge_count() && id2 % 2 == 0
                        && (#[trigger] g.edge_from(id2)) == es[j2].0 as int
                        && g.edge_to(id2) == es[j2].1 as int + size
                        && g.edge_flow(id2) >= 1;
                assert(es[j2].0 != uu);
                assert(g.edge_to(id2) == g.edge_to(e));
                lemma_right_unique(g, size, e, id2);
                assert(false);
            }
        }
        lemma_left_empty(g, size, uu as int);
        // Nothing flows into vv's right copy either.
        assert forall|e: int|
            0 <= e < g.edge_count() && e % 2 == 0
                && #[trigger] g.edge_to(e) == size + vv
                implies g.edge_flow(e) <= 0 by {
            if g.edge_flow(e) >= 1 {
                assert(g.edge_from(e) < gr.size);
                let k = choose|k: int|
                    0 <= k < listing.len()
                        && (#[trigger] listing[k]).0 as int == g.edge_from(e)
                        && listing[k].1 as int == g.edge_to(e)
                        && listing[k].2 as int == g.edge_flow(e);
                assert(listing[k].0 < gr.size);
                assert(seen_u[listing[k].0 as int]
                    || seen_v[listing[k].1 as int - gr.size]);
                if seen_v[listing[k].1 as int - gr.size] {
                    assert(listing[k].1 as int - gr.size == vv as int);
                    assert(seen_v[vv as int]);
                    assert(false);
                } else {
                    assert(seen_u[g.edge_from(e)]);
                    let j3 = choose|j3: int|
                        0 <= j3 < es.len() && (#[trigger] es[j3]).0 as int == g.edge_from(e);
                    assert(flow_edge_for(g, es[j3].0 as int, es[j3].1 as int, size));
                    let id3 = choose|id3: int|
                        0 <= id3 < g.edge_count() && id3 % 2 == 0
                            && (#[trigger] g.edge_from(id3)) == es[j3].0 as int
                            && g.edge_to(id3) == es[j3].1 as int + size
                            && g.edge_flow(id3) >= 1;
                    lemma_left_unique(g, size, e, id3);
                    assert(g.edge_to(id3) == size + vv);
                    assert(es[j3].1 as int == vv as int);
                    assert(es[j3].1 == vv);
                    assert(false);
                }
            }
        }
        lemma_right_empty(g, size, vv as int);
        // The unit edge for (uu, vv) itself carries nothing.
        let jj = choose|jj: int|
            0 <= jj < (gr.edges[uu as int])@.len()
                && (gr.edges[uu as int])@[jj] == vv;
        assert(unit_edge_for(g, uu as int, (gr.edges[uu as int])@[jj] + gr.size));
        let id_uv = choose|id_uv: int|
            0 <= id_uv < g.edge_count() && id_uv % 2 == 0
                && (#[trigger] g.edge_from(id_uv)) == uu as int
                && g.edge_to(id_uv) == vv as int + size
                && g.edge_cap(id_uv) == 1;
        assert(g.edge_flow(id_uv) <= 0);
        g.lemma_edge_props(id_uv);
        assert(g.edge_flow(id_uv) == 0);
        // The three unit edges form an augmenting path: contradiction.
        g.lemma_counts();
        let e0 = 4 * (uu as int);
        let e2 = 4 * (vv as int) + 2;
        assert(g.edge_from(e0) == 2 * size && g.edge_to(e0) == uu as int
            && g.edge_cap(e0) == 1);
        assert(g.edge_from(e2) == vv as int + size && g.edge_to(e2) == 2 * size + 1
            && g.edge_cap(e2) == 1);
        assert(g.edge_flow(e0) == 0);
        assert(g.edge_flow(e2) == 0);
        let p = seq![e0 as usize, id_uv as usize, e2 as usize];
        assert((e0 as usize) as int == e0);
        assert((id_uv as usize) as int == id_uv);
        assert((e2 as usize) as int == e2);
        assert(p.len() == 3);
        assert(p[0] == e0 as usize && p[1] == id_uv as usize && p[2] == e2 as usize);
        assert(g.residual_st_path(p)) by {
            assert forall|i: int| 0 <= i < p.len()
                implies (#[trigger] p[i]) < g.edge_count()
                    && g.edge_cap(p[i] as int) - g.edge_flow(p[i] as int) >= 1
                    && (i > 0 ==> g.edge_from(p[i] as int) == g.edge_to(p[i - 1] as int)) by {
                if i == 0 {
                } else if i == 1 {
                } else {
                    assert(i == 2);
                }
            }
            assert(g.edge_from(p[0] as int) == g.spec_source());
            assert(g.edge_to(p[2] as int) == g.spec_sink());
        }
        assert(false);
    }
}

/// Adjacency lists of a bipartite graph on n + n vertices.
pub struct Graph {
    pub size: usize,
    pub edges: Vec<Vec<usize>>,
}

/// An ordered list of left-right vertex pairs.
pub struct Match {
    pub(crate) edges: Vec<(usize, usize)>,
}

impl View for Match {
    type V = Seq<(usize, usize)>;

    closed spec fn view(&self) -> Seq<(usize, usize)> {
        self.edges@
    }
}

impl Match {
    /// The left endpoints, in order.
    pub open spec fn lefts(self) -> Seq<usize> {
        self@.map_values(|e: (usize, usize)| e.0)
    }

    /// The right endpoints, in order.
    pub open spec fn rights(self) -> Seq<usize> {
        self@.map_values(|e: (usize, usize)| e.1)
    }

    /// Both projections are permutations of [0, len).
    pub open spec fn valid(self) -> bool {
        &&& is_perm_of(self.lefts(), self@.len() as int)
        &&& is_perm_of(self.rights(), self@.len() as int)
    }

    /// Number of edges.
    pub fn size(&self) -> (r: usize)
        ensures
            r == self@.len(),
    {
        self.edges.len()
    }

    /// The pair stored at position k.
    pub fn edge_at(&self, k: usize) -> (r: (usize, usize))
        requires
            k < self@.len(),
        ensures
            r == self@[k as int],
    {
        self.edges[k]
    }

    /// A uniformly random permutation matching: left endpoints in order,
    /// right endpoints a shuffled permutation.
    pub fn random(size: usize) -> (r: Self)
        ensures
            r@.len() == size,
            r.valid(),
            forall|k: int| 0 <= k < size ==> (#[trigger] r@[k]).0 == k,
    {
        let mut values: Vec<usize> = Vec::new();
        while values.len() < size
            invariant
                values.len() <= size,
                forall|k: int| 0 <= k < values.len() ==> values[k] == k,
            decreases size - values.len(),
        {
            let k = values.len();
            values.push(k);
        }
        let ghost identity = values@;
        shuffle_values(&mut values);
        proof {
            lemma_shuffled_range_is_perm(identity, values@, size as int);
        }
        let mut edges: Vec<(usize, usize)> = Vec::new();
        while edges.len() < size
            invariant
                edges.len() <= size,
                values.len() == size,
                is_perm_of(values@, size as int),
                forall|k: int| 0 <= k < edges.len()
                    ==> (#[trigger] edges[k]).0 == k && edges[k].1 == values[k],
            decreases size - edges.len(),
        {
            let k = edges.len();
            let v = values[k];
            edges.push((k, v));
        }
        let r = Match { edges };
        proof {
            assert(r.lefts() =~= Seq::new(size as nat, |k: int| k as usize));
            assert(r.rights() =~= values@);
        }
        r
    }

    /// Two distinct edge positions, drawn at random; the proposal for a swap
    /// move.
    ///
    /// Relies on rand: `IteratorRandom::sample` fills its reservoir from
    /// distinct positions of the iterator, and `0..n` yields distinct values;
    /// with at least two elements available it returns exactly two.
    #[verifier::external_body]
    pub fn choose_edge_pairs(&self) -> (r: (usize, usize))
        requires
            self@.len() >= 2,
        ensures
            r.0 < self@.len(),
            r.1 < self@.len(),
            r.0 != r.1,
    {
        let picks = rand::seq::IteratorRandom::sample(0..self.edges.len(), &mut rand::rng(), 2);
        (picks[0], picks[1])
    }

    /// Apply an accepted swap move: the edges at positions i and j exchange
    /// their right endpoints.
    pub fn apply_swap(&mut self, i: usize, j: usize)
        requires
            i < old(self)@.len(),
            j < old(self)@.len(),
            i != j,
        ensures
            final(self)@ == old(self)@
                .update(i as int, (old(self)@[i as int].0, old(self)@[j as int].1))
                .update(j as int, (old(self)@[j as int].0, old(self)@[i as int].1)),
            old(self).valid() ==> final(self).valid(),
    {
        let (u1, v1) = self.edges[i];
        let (u2, v2) = self.edges[j];
        self.edges.set(i, (u1, v2));
        self.edges.set(j, (u2, v1));
        proof {
            if old(self).valid() {
                let n = old(self)@.len() as int;
                assert(final(self).lefts() =~= old(self).lefts());
                assert(final(self).rights() =~= old(self).rights()
                    .update(i as int, old(self).rights()[j as int])
                    .update(j as int, old(self).rights()[i as int]));
                lemma_swap_preserves_permutation(old(self).rights(), n, i as int, j as int);
            }
        }
    }
}

/// Swapping two entries of a permutation of [0, n) yields a permutation of
/// [0, n).
pub proof fn lemma_swap_preserves_permutation(s: Seq<usize>, n: int, i: int, j: int)
    requires
        is_perm_of(s, n),
        0 <= i < n,
        0 <= j < n,
        i != j,
    ensures
        is_perm_of(s.update(i, s[j]).update(j, s[i]), n),
{
    let s2 = s.update(i, s[j]).update(j, s[i]);
    assert(forall|k: int| 0 <= k < n ==> s2[k] == (if k == i { s[j] } else if k == j { s[i] } else { s[k] }));
}

/// A sequence with the same multiset of values as the identity sequence on
/// [0, n) is itself a permutation of [0, n).
proof fn lemma_shuffled_range_is_perm(identity: Seq<usize>, shuffled: Seq<usize>, n: int)
    requires
        identity.len() == n,
        forall|k: int| 0 <= k < n ==> identity[k] == k,
        shuffled.len() == n,
        shuffled.to_multiset() == identity.to_multiset(),
    ensures
        is_perm_of(shuffled, n),
{
    broadcast use vstd::seq_lib::group_to_multiset_ensures;

    assert forall|k: int| 0 <= k < n implies shuffled[k] < n by {
        assert(shuffled.contains(shuffled[k]));
        assert(shuffled.to_multiset().count(shuffled[k]) > 0);
        assert(identity.contains(shuffled[k]));
    }
    assert(identity.no_duplicates());
    identity.lemma_multiset_has_no_duplicates();
    assert forall|x: usize| shuffled.to_multiset().contains(x)
        implies shuffled.to_multiset().count(x) == 1 by {
        assert(identity.to_multiset().count(x) > 0);
        assert(identity.to_multiset().contains(x));
    }
    shuffled.lemma_multiset_has_no_duplicates_conv();
}

/// Shuffle the values in place.
///
/// Relies on rand: `SliceRandom::shuffle`, driven by the thread-local
/// generator, permutes the slice in place, so the multiset of values (and
/// with it the length) is unchanged.
#[verifier::external_body]
fn shuffle_values(values: &mut Vec<usize>)
    ensures
        final(values)@.len() == old(values)@.len(),
        final(values)@.to_multiset() == old(values)@.to_multiset(),
{
    rand::seq::SliceRandom::shuffle(values.as_mut_slice(), &mut rand::rng());
}

impl Graph {
    /// Sizes agree, every listed right endpoint is in range, and no
    /// adjacency list is longer than the vertex count bound (so that the
    /// total capacity of the flow network stays within machine range).
    pub open spec fn wf(self) -> bool {
        &&& self.size <= 0x4000
        &&& self.edges.len() == self.size
        &&& forall|u: int| 0 <= u < self.size
            ==> (#[trigger] self.edges[u])@.len() <= 0x4000
                && forall|k: int| 0 <= k < (self.edges[u])@.len()
                    ==> (self.edges[u])@[k] < self.size
    }

    /// (u, v) is an edge of the graph.
    pub open spec fn has_edge(self, u: int, v: int) -> bool {
        &&& 0 <= u < self.edges.len()
        &&& exists|k: int| 0 <= k < (self.edges[u])@.len() && (self.edges[u])@[k] == v
    }

    /// Check the well-formedness of a freshly loaded graph.
    pub fn validate(&self) -> (r: bool)
        ensures
            r == self.wf(),
    {
        if self.size > 0x4000 {
            return false;
        }
        if self.edges.len() != self.size {
            return false;
        }
        let mut u: usize = 0;
        while u < self.edges.len()
            invariant
                u <= self.edges.len(),
                self.edges.len() == self.size,
                forall|x: int| 0 <= x < u
                    ==> (#[trigger] self.edges[x])@.len() <= 0x4000
                        && forall|k: int| 0 <= k < (self.edges[x])@.len()
                            ==> (self.edges[x])@[k] < self.size,
            decreases self.edges.len() - u,
        {
            let row = &self.edges[u];
            if row.len() > 0x4000 {
                return false;
            }
            let mut k: usize = 0;
            while k < row.len()
                invariant
                    k <= row.len(),
                    row == &self.edges[u as int],
                    u < self.edges.len(),
                    self.edges.len() == self.size,
                    forall|j: int| 0 <= j < k ==> row@[j] < self.size,
                decreases row.len() - k,
            {
                if row[k] >= self.size {
                    return false;
                }
                k += 1;
            }
            u += 1;
        }
        true
    }

    /// Find a maximum bipartite matching by one run of the max-flow solver:
    /// unit edges source→u and v→sink for every vertex, u→v for every edge
    /// of the graph. The result pairs distinct left vertices with distinct
    /// right vertices along edges of the graph, no edge of the graph joins
    /// two vertices the result leaves uncovered (the matching is maximal),
    /// and a result that covers every vertex is a perfect matching — the
    /// caller's feasibility gate checks exactly that.
    #[verifier::rlimit(100)]
    pub fn find_match(&self) -> (r: Match)
        requires
            self.wf(),
        ensures
            r@.len() <= self.size,
            forall|k: int| 0 <= k < r@.len()
                ==> (#[trigger] r@[k]).0 < self.size && r@[k].1 < self.size
                    && self.has_edge(r@[k].0 as int, r@[k].1 as int),
            forall|k1: int, k2: int|
                0 <= k1 < r@.len() && 0 <= k2 < r@.len() && k1 != k2
                    ==> (#[trigger] r@[k1]).0 != (#[trigger] r@[k2]).0
                        && r@[k1].1 != r@[k2].1,
            r@.len() == self.size ==> r.valid(),
            forall|uu: usize, vv: usize|
                uu < self.size && vv < self.size
                    && #[trigger] self.has_edge(uu as int, vv as int)
                    ==> r.lefts().contains(uu) || r.rights().contains(vv),
    {
        let size = self.size;
        let src = 2 * size;
        let sink = 2 * size + 1;
        let mut graph = DinicGraph::new(2 * size + 2, src, sink);
        proof {
            assert(graph.adj(graph.spec_source()).len() == 0);
            assert(graph.adj(graph.spec_source()) =~= Seq::<usize>::empty());
            assert(graph.source_cap() == 0);
        }
        let mut i: usize = 0;
        while i < size
            invariant
                i <= size,
                size == self.size,
                src == 2 * size,
                sink == 2 * size + 1,
                self.wf(),
                graph.wf(),
                graph.flow_consistent(),
                graph.cleared(),
                graph.n() == 2 * size + 2,
                graph.spec_source() == 2 * size,
                graph.spec_sink() == 2 * size + 1,
                graph.adj_complete(),
                graph.conserving(),
                graph.edge_count() == 4 * i,
                graph.total_cap() == 2 * i,
                graph.source_cap() == i,
                graph.flow_total() == 0,
                forall|id: int|
                    0 <= id < graph.edge_count() && id % 2 == 0
                        ==> #[trigger] graph.edge_from(id) >= size,
                forall|x: int| 0 <= x < i
                    ==> graph.edge_from(#[trigger] (4 * x)) == 2 * size
                        && graph.edge_to(4 * x) == x
                        && graph.edge_cap(4 * x) == 1
                        && graph.edge_from(4 * x + 2) == x + size
                        && graph.edge_to(4 * x + 2) == 2 * size + 1
                        && graph.edge_cap(4 * x + 2) == 1,
                forall|x: int| 0 <= x < size
                    ==> (#[trigger] graph.adj(x)).len() == if x < i { 1int } else { 0int },
                forall|x: int| 0 <= x < i ==> (#[trigger] graph.adj(x))[0] as int == 4 * x + 1,
                forall|y: int| 0 <= y < size
                    ==> (#[trigger] graph.adj(size + y)).len() == if y < i { 1int } else { 0int },
                forall|y: int| 0 <= y < i
                    ==> (#[trigger] graph.adj(size + y))[0] as int == 4 * y + 2,
            decreases size - i,
        {
            let ghost g_a = graph;
            graph.add_edge(src, i, 1);
            let ghost g_b = graph;
            graph.add_edge(i + size, sink, 1);
            proof {
                assert forall|id: int|
                    0 <= id < graph.edge_count() && id % 2 == 0
                        implies #[trigger] graph.edge_from(id) >= size by {
                    if id < g_a.edge_count() {
                        assert(graph.edge_from(id) == g_b.edge_from(id));
                        assert(g_b.edge_from(id) == g_a.edge_from(id));
                    } else if id == g_a.edge_count() {
                        assert(graph.edge_from(id) == g_b.edge_from(id));
                    }
                }
                assert forall|x: int| 0 <= x < i + 1
                    implies graph.edge_from(#[trigger] (4 * x)) == 2 * size
                        && graph.edge_to(4 * x) == x
                        && graph.edge_cap(4 * x) == 1
                        && graph.edge_from(4 * x + 2) == x + size
                        && graph.edge_to(4 * x + 2) == 2 * size + 1
                        && graph.edge_cap(4 * x + 2) == 1 by {
                    if x < i as int {
                        assert(graph.edge_from(4 * x) == g_b.edge_from(4 * x));
                        assert(g_b.edge_from(4 * x) == g_a.edge_from(4 * x));
                        assert(graph.edge_to(4 * x) == g_b.edge_to(4 * x));
                        assert(g_b.edge_to(4 * x) == g_a.edge_to(4 * x));
                        assert(graph.edge_cap(4 * x) == g_b.edge_cap(4 * x));
                        assert(g_b.edge_cap(4 * x) == g_a.edge_cap(4 * x));
                        assert(graph.edge_from(4 * x + 2) == g_b.edge_from(4 * x + 2));
                        assert(g_b.edge_from(4 * x + 2) == g_a.edge_from(4 * x + 2));
                        assert(graph.edge_to(4 * x + 2) == g_b.edge_to(4 * x + 2));
                        assert(g_b.edge_to(4 * x + 2) == g_a.edge_to(4 * x + 2));
                        assert(graph.edge_cap(4 * x + 2) == g_b.edge_cap(4 * x + 2));
                        assert(g_b.edge_cap(4 * x + 2) == g_a.edge_cap(4 * x + 2));
                    } else {
                        assert(g_b.edge_from(4 * x) == src as int);
                        assert(graph.edge_from(4 * x) == g_b.edge_from(4 * x));
                        assert(graph.edge_to(4 * x) == g_b.edge_to(4 * x));
                        assert(graph.edge_cap(4 * x) == g_b.edge_cap(4 * x));
                        assert(graph.edge_from(4 * x + 2) == i + size);
                        assert(graph.edge_to(4 * x + 2) == sink as int);
                        assert(graph.edge_cap(4 * x + 2) == 1);
                    }
                }
                assert forall|x: int| 0 <= x < size
                    implies (#[trigger] graph.adj(x)).len()
                        == if x < i + 1 { 1int } else { 0int } by {
                    if x == i as int {
                        assert(g_b.adj(x) == g_a.adj(x).push((4 * i + 1) as usize));
                        assert(graph.adj(x) == g_b.adj(x));
                    } else {
                        assert(g_b.adj(x) == g_a.adj(x));
                        assert(graph.adj(x) == g_b.adj(x));
                    }
                }
                assert forall|x: int| 0 <= x < i + 1
                    implies (#[trigger] graph.adj(x))[0] as int == 4 * x + 1 by {
                    if x == i as int {
                        assert(g_b.adj(x) == g_a.adj(x).push((4 * i + 1) as usize));
                        assert(graph.adj(x) == g_b.adj(x));
                    } else {
                        assert(g_b.adj(x) == g_a.adj(x));
                        assert(graph.adj(x) == g_b.adj(x));
                    }
                }
                assert forall|y: int| 0 <= y < size
                    implies (#[trigger] graph.adj(size + y)).len()
                        == if y < i + 1 { 1int } else { 0int } by {
                    if y == i as int {
                        assert(g_b.adj(size + y) == g_a.adj(size + y));
                        assert(graph.adj(size + y)
                            == g_b.adj(size + y).push((4 * i + 2) as usize));
                    } else {
                        assert(g_b.adj(size + y) == g_a.adj(size + y));
                        assert(graph.adj(size + y) == g_b.adj(size + y));
                    }
                }
                assert forall|y: int| 0 <= y < i + 1
                    implies (#[trigger] graph.adj(size + y))[0] as int == 4 * y + 2 by {
                    if y == i as int {
                        assert(g_b.adj(size + y) == g_a.adj(size + y));
                        assert(graph.adj(size + y)
                            == g_b.adj(size + y).push((4 * i + 2) as usize));
                    } else {
                        assert(g_b.adj(size + y) == g_a.adj(size + y));
                        assert(graph.adj(size + y) == g_b.adj(size + y));
                    }
                }
            }
            i += 1;
        }
        proof {
            assert forall|id: int|
                0 <= id < graph.edge_count() && id % 2 == 0
                    && size <= #[trigger] graph.edge_to(id) < 2 * size
                    implies graph.edge_from(id) < size by {
                vstd::arithmetic::div_mod::lemma_fundamental_div_mod(id, 4);
                let x = id / 4;
                assert(0 <= x < size);
                if id % 4 == 0 {
                    assert(id == 4 * x);
                    assert(graph.edge_to(4 * x) == x);
                    assert(false);
                } else {
                    assert(id % 4 == 2);
                    assert(id == 4 * x + 2);
                    assert(graph.edge_to(4 * x + 2) == 2 * size + 1);
                    assert(false);
                }
            }
        }
        let mut u: usize = 0;
        while u < size
            invariant
                u <= size,
                size == self.size,
                self.wf(),
                graph.wf(),
                graph.flow_consistent(),
                graph.cleared(),
                graph.n() == 2 * size + 2,
                graph.spec_source() == 2 * size,
                graph.spec_sink() == 2 * size + 1,
                graph.adj_complete(),
                graph.conserving(),
                graph.edge_count() <= 4 * size + 2 * (u * 0x4000),
                graph.edge_count() % 2 == 0,
                graph.edge_count() >= 4 * size,
                graph.total_cap() <= 2 * size + u * 0x4000,
                graph.source_cap() == size,
                graph.flow_total() == 0,
                forall|id: int|
                    0 <= id < graph.edge_count() && id % 2 == 0
                        && #[trigger] graph.edge_from(id) < size
                        ==> size <= graph.edge_to(id) < 2 * size
                            && self.has_edge(graph.edge_from(id), graph.edge_to(id) - size),
                forall|id: int|
                    0 <= id < graph.edge_count() && id % 2 == 0
                        && size <= #[trigger] graph.edge_to(id) < 2 * size
                        ==> graph.edge_from(id) < size,
                forall|x: int| 0 <= x < size
                    ==> graph.edge_from(#[trigger] (4 * x)) == 2 * size
                        && graph.edge_to(4 * x) == x
                        && graph.edge_cap(4 * x) == 1
                        && graph.edge_from(4 * x + 2) == x + size
                        && graph.edge_to(4 * x + 2) == 2 * size + 1
                        && graph.edge_cap(4 * x + 2) == 1,
                forall|x: int| 0 <= x < size
                    ==> (#[trigger] graph.adj(x)).len() >= 1
                        && graph.adj(x)[0] as int == 4 * x + 1,
                forall|x: int, kk: int|
                    0 <= x < size && 1 <= kk < graph.adj(x).len()
                        ==> ((#[trigger] graph.adj(x)[kk]) as int) % 2 == 0
                            && graph.edge_cap(graph.adj(x)[kk] as int) == 1
                            && size <= graph.edge_to(graph.adj(x)[kk] as int) < 2 * size,
                forall|y: int| 0 <= y < size
                    ==> (#[trigger] graph.adj(size + y)).len() >= 1
                        && graph.adj(size + y)[0] as int == 4 * y + 2,
                forall|y: int, kk: int|
                    0 <= y < size && 1 <= kk < graph.adj(size + y).len()
                        ==> ((#[trigger] graph.adj(size + y)[kk]) as int) % 2 == 1,
                forall|u2: int, j: int|
                    0 <= u2 < u && 0 <= j < (self.edges[u2])@.len()
                        ==> unit_edge_for(graph, u2,
                            (#[trigger] (self.edges[u2])@[j]) + size),
            decreases size - u,
        {
            let row = &self.edges[u];
            let mut k: usize = 0;
            while k < row.len()
                invariant
                    k <= row.len(),
                    u < size,
                    size == self.size,
                    self.wf(),
                    row == &self.edges[u as int],
                    graph.wf(),
                    graph.flow_consistent(),
                    graph.cleared(),
                    graph.n() == 2 * size + 2,
                    graph.spec_source() == 2 * size,
                    graph.spec_sink() == 2 * size + 1,
                    graph.adj_complete(),
                    graph.conserving(),
                    graph.edge_count() <= 4 * size + 2 * (u * 0x4000 + k),
                    graph.edge_count() % 2 == 0,
                    graph.edge_count() >= 4 * size,
                    graph.total_cap() <= 2 * size + u * 0x4000 + k,
                    graph.source_cap() == size,
                    graph.flow_total() == 0,
                    forall|id: int|
                        0 <= id < graph.edge_count() && id % 2 == 0
                            && #[trigger] graph.edge_from(id) < size
                            ==> size <= graph.edge_to(id) < 2 * size
                                && self.has_edge(graph.edge_from(id), graph.edge_to(id) - size),
                    forall|id: int|
                        0 <= id < graph.edge_count() && id % 2 == 0
                            && size <= #[trigger] graph.edge_to(id) < 2 * size
                            ==> graph.edge_from(id) < size,
                    forall|x: int| 0 <= x < size
                        ==> graph.edge_from(#[trigger] (4 * x)) == 2 * size
                            && graph.edge_to(4 * x) == x
                            && graph.edge_cap(4 * x) == 1
                            && graph.edge_from(4 * x + 2) == x + size
                            && graph.edge_to(4 * x + 2) == 2 * size + 1
                            && graph.edge_cap(4 * x + 2) == 1,
                    forall|x: int| 0 <= x < size
                        ==> (#[trigger] graph.adj(x)).len() >= 1
                            && graph.adj(x)[0] as int == 4 * x + 1,
                    forall|x: int, kk: int|
                        0 <= x < size && 1 <= kk < graph.adj(x).len()
                            ==> ((#[trigger] graph.adj(x)[kk]) as int) % 2 == 0
                                && graph.edge_cap(graph.adj(x)[kk] as int) == 1
                                && size <= graph.edge_to(graph.adj(x)[kk] as int) < 2 * size,
                    forall|y: int| 0 <= y < size
                        ==> (#[trigger] graph.adj(size + y)).len() >= 1
                            && graph.adj(size + y)[0] as int == 4 * y + 2,
                    forall|y: int, kk: int|
                        0 <= y < size && 1 <= kk < graph.adj(size + y).len()
                            ==> ((#[trigger] graph.adj(size + y)[kk]) as int) % 2 == 1,
                    forall|u2: int, j: int|
                        0 <= u2 < size && 0 <= j < (self.edges[u2])@.len()
                            && (u2 < u || (u2 == u && j < k))
                            ==> unit_edge_for(graph, u2,
                                (#[trigger] (self.edges[u2])@[j]) + size),
                decreases row.len() - k,
            {
                let v = row[k];
                proof {
                    assert(u * 0x4000 + k < size * 0x4000) by (nonlinear_arith)
                        requires u < size && k < 0x4000 && row@.len() <= 0x4000 && k < row@.len();
                    assert(size * 0x4000 <= 0x4000 * 0x4000) by (nonlinear_arith)
                        requires size <= 0x4000;
                }
                let ghost g_a = graph;
                graph.add_edge(u, v + size, 1);
                proof {
                    let ghost m = g_a.edge_count();
                    assert forall|id: int|
                        0 <= id < graph.edge_count() && id % 2 == 0
                            && #[trigger] graph.edge_from(id) < size
                            implies size <= graph.edge_to(id) < 2 * size
                                && self.has_edge(graph.edge_from(id), graph.edge_to(id) - size) by {
                        if id < g_a.edge_count() {
                            assert(graph.edge_from(id) == g_a.edge_from(id));
                            assert(graph.edge_to(id) == g_a.edge_to(id));
                        } else {
                            assert(row@[k as int] == v);
                        }
                    }
                    assert forall|id: int|
                        0 <= id < graph.edge_count() && id % 2 == 0
                            && size <= #[trigger] graph.edge_to(id) < 2 * size
                            implies graph.edge_from(id) < size by {
                        if id < g_a.edge_count() {
                            assert(graph.edge_from(id) == g_a.edge_from(id));
                            assert(graph.edge_to(id) == g_a.edge_to(id));
                        }
                    }
                    assert forall|x: int| 0 <= x < size
                        implies graph.edge_from(#[trigger] (4 * x)) == 2 * size
                            && graph.edge_to(4 * x) == x
                            && graph.edge_cap(4 * x) == 1
                            && graph.edge_from(4 * x + 2) == x + size
                            && graph.edge_to(4 * x + 2) == 2 * size + 1
                            && graph.edge_cap(4 * x + 2) == 1 by {
                        assert(4 * x + 2 < 4 * size);
                        assert(graph.edge_from(4 * x) == g_a.edge_from(4 * x));
                        assert(graph.edge_to(4 * x) == g_a.edge_to(4 * x));
                        assert(graph.edge_cap(4 * x) == g_a.edge_cap(4 * x));
                        assert(graph.edge_from(4 * x + 2) == g_a.edge_from(4 * x + 2));
                        assert(graph.edge_to(4 * x + 2) == g_a.edge_to(4 * x + 2));
                        assert(graph.edge_cap(4 * x + 2) == g_a.edge_cap(4 * x + 2));
                    }
                    assert(graph.adj(u as int) == g_a.adj(u as int).push(m as usize));
                    assert(graph.adj(size + v) == g_a.adj(size + v).push((m + 1) as usize));
                    assert forall|x: int| 0 <= x < size
                        implies (#[trigger] graph.adj(x)).len() >= 1
                            && graph.adj(x)[0] as int == 4 * x + 1 by {
                        if x != u as int {
                            assert(graph.adj(x) == g_a.adj(x));
                        }
                    }
                    assert forall|x: int, kk: int|
                        0 <= x < size && 1 <= kk < graph.adj(x).len()
                            implies ((#[trigger] graph.adj(x)[kk]) as int) % 2 == 0
                                && graph.edge_cap(graph.adj(x)[kk] as int) == 1
                                && size <= graph.edge_to(graph.adj(x)[kk] as int) < 2 * size by {
                        g_a.lemma_adj_parts(x);
                        if x != u as int {
                            assert(graph.adj(x) == g_a.adj(x));
                            assert(g_a.adj(x)[kk] == graph.adj(x)[kk]);
                            let e = graph.adj(x)[kk] as int;
                            assert(0 <= e < g_a.edge_count());
                            assert((g_a.adj(x)[kk] as int) % 2 == 0);
                            assert(g_a.edge_cap(e) == 1
                                && size <= g_a.edge_to(e) < 2 * size);
                            assert(graph.edge_cap(e) == g_a.edge_cap(e));
                            assert(graph.edge_to(e) == g_a.edge_to(e));
                        } else {
                            if kk < g_a.adj(x).len() {
                                assert(g_a.adj(x)[kk] == graph.adj(x)[kk]);
                                let e = graph.adj(x)[kk] as int;
                                assert(0 <= e < g_a.edge_count());
                                assert((g_a.adj(x)[kk] as int) % 2 == 0);
                                assert(g_a.edge_cap(e) == 1
                                    && size <= g_a.edge_to(e) < 2 * size);
                                assert(graph.edge_cap(e) == g_a.edge_cap(e));
                                assert(graph.edge_to(e) == g_a.edge_to(e));
                            } else {
                                assert(graph.adj(x)[kk] as int == m);
                                assert(m % 2 == 0);
                                assert(graph.edge_cap(m) == 1);
                                assert(graph.edge_to(m) == size + v);
                            }
                        }
                    }
                    assert forall|y: int| 0 <= y < size
                        implies (#[trigger] graph.adj(size + y)).len() >= 1
                            && graph.adj(size + y)[0] as int == 4 * y + 2 by {
                        if y != v as int {
                            assert(graph.adj(size + y) == g_a.adj(size + y));
                        }
                    }
                    assert forall|y: int, kk: int|
                        0 <= y < size && 1 <= kk < graph.adj(size + y).len()
                            implies ((#[trigger] graph.adj(size + y)[kk]) as int) % 2 == 1 by {
                        if y != v as int {
                            assert(graph.adj(size + y) == g_a.adj(size + y));
                            assert(g_a.adj(size + y)[kk] == graph.adj(size + y)[kk]);
                        } else {
                            if kk < g_a.adj(size + y).len() {
                                assert(g_a.adj(size + y)[kk] == graph.adj(size + y)[kk]);
                            } else {
                                assert(graph.adj(size + y)[kk] as int == m + 1);
                            }
                        }
                    }
                    assert forall|u2: int, j: int|
                        0 <= u2 < size && 0 <= j < (self.edges[u2])@.len()
                            && (u2 < u as int || (u2 == u as int && j < k + 1))
                            implies unit_edge_for(graph, u2,
                                (#[trigger] (self.edges[u2])@[j]) + size) by {
                        if u2 == u as int && j == k as int {
                            assert((self.edges[u2])@[j] == v);
                            assert(graph.edge_from(m) == u as int);
                            assert(graph.edge_to(m) == v + size);
                            assert(graph.edge_cap(m) == 1);
                            assert(m % 2 == 0);
                            assert(unit_edge_for(graph, u2, (self.edges[u2])@[j] + size));
                        } else {
                            assert(unit_edge_for(g_a, u2, (self.edges[u2])@[j] + size));
                            let id = choose|id: int|
                                0 <= id < g_a.edge_count() && id % 2 == 0
                                    && (#[trigger] g_a.edge_from(id)) == u2
                                    && g_a.edge_to(id) == (self.edges[u2])@[j] + size
                                    && g_a.edge_cap(id) == 1;
                            assert(graph.edge_from(id) == g_a.edge_from(id));
                            assert(graph.edge_to(id) == g_a.edge_to(id));
                            assert(graph.edge_cap(id) == g_a.edge_cap(id));
                        }
                    }
                    assert(u * 0x4000 + k + 1 <= u * 0x4000 + row@.len());
                    assert(u * 0x4000 + row@.len() <= u * 0x4000 + 0x4000);
                }
                k += 1;
            }
            proof {
                assert(u * 0x4000 + 0x4000 == (u + 1) * 0x4000) by (nonlinear_arith);
                assert(graph.total_cap() <= 2 * size + (u + 1) * 0x4000);
                assert(graph.edge_count() <= 4 * size + 2 * ((u + 1) * 0x4000));
            }
            u += 1;
        }
        let ghost g_built = graph;
        let flow = graph.calculate_flow();
        let listing = graph.current_flow();
        proof {
            graph.lemma_counts();
            graph.lemma_flow_edges_sound(graph.edge_count());
            // The structure of the network carries over the flow run.
            assert forall|x: int| 0 <= x < size
                implies graph.edge_from(#[trigger] (4 * x)) == 2 * size
                    && graph.edge_to(4 * x) == x
                    && graph.edge_cap(4 * x) == 1
                    && graph.edge_from(4 * x + 2) == x + size
                    && graph.edge_to(4 * x + 2) == 2 * size + 1
                    && graph.edge_cap(4 * x + 2) == 1 by {
                assert(graph.edge_from(4 * x) == g_built.edge_from(4 * x));
                assert(graph.edge_from(4 * x + 2) == g_built.edge_from(4 * x + 2));
            }
            assert forall|x: int| 0 <= x < size
                implies (#[trigger] graph.adj(x)).len() >= 1
                    && graph.adj(x)[0] as int == 4 * x + 1 by {
                assert(graph.adj(x) == g_built.adj(x));
            }
            assert forall|x: int, kk: int|
                0 <= x < size && 1 <= kk < graph.adj(x).len()
                    implies ((#[trigger] graph.adj(x)[kk]) as int) % 2 == 0
                        && graph.edge_cap(graph.adj(x)[kk] as int) == 1
                        && size <= graph.edge_to(graph.adj(x)[kk] as int) < 2 * size by {
                assert(graph.adj(x) == g_built.adj(x));
                assert((g_built.adj(x)[kk] as int) % 2 == 0);
                let e = graph.adj(x)[kk] as int;
                g_built.lemma_adj_parts(x);
                assert(0 <= e < g_built.edge_count());
                assert(graph.edge_from(e) == g_built.edge_from(e));
                assert(graph.edge_cap(e) == g_built.edge_cap(e));
                assert(graph.edge_to(e) == g_built.edge_to(e));
            }
            assert forall|y: int| 0 <= y < size
                implies (#[trigger] graph.adj(size + y)).len() >= 1
                    && graph.adj(size + y)[0] as int == 4 * y + 2 by {
                assert(graph.adj(size + y) == g_built.adj(size + y));
            }
            assert forall|y: int, kk: int|
                0 <= y < size && 1 <= kk < graph.adj(size + y).len()
                    implies ((#[trigger] graph.adj(size + y)[kk]) as int) % 2 == 1 by {
                assert(graph.adj(size + y) == g_built.adj(size + y));
                assert((g_built.adj(size + y)[kk] as int) % 2 == 1);
            }
            assert(bipartite_shape(graph, size as int));
            assert forall|id: int|
                0 <= id < graph.edge_count() && id % 2 == 0
                    && #[trigger] graph.edge_from(id) < size
                    implies size <= graph.edge_to(id) < 2 * size
                        && self.has_edge(graph.edge_from(id), graph.edge_to(id) - size) by {
                assert(graph.edge_from(id) == g_built.edge_from(id));
                assert(graph.edge_to(id) == g_built.edge_to(id));
            }
            assert forall|id: int|
                0 <= id < graph.edge_count() && id % 2 == 0
                    && size <= #[trigger] graph.edge_to(id) < 2 * size
                    implies graph.edge_from(id) < size by {
                assert(graph.edge_from(id) == g_built.edge_from(id));
                assert(graph.edge_to(id) == g_built.edge_to(id));
            }
            assert forall|id: int|
                0 <= id < graph.edge_count() && id % 2 == 0
                    && #[trigger] graph.edge_flow(id) >= 1
                    implies exists|k: int|
                        0 <= k < listing@.len()
                            && (#[trigger] listing@[k]).0 as int == graph.edge_from(id)
                            && listing@[k].1 as int == graph.edge_to(id)
                            && listing@[k].2 as int == graph.edge_flow(id) by {
                graph.lemma_flow_edges_complete(graph.edge_count(), id);
                let k = choose|k: int|
                    0 <= k < graph.flow_edges_upto(graph.edge_count()).len()
                        && (#[trigger] graph.flow_edges_upto(graph.edge_count())[k]).0 as int
                            == graph.edge_from(id)
                        && graph.flow_edges_upto(graph.edge_count())[k].1 as int
                            == graph.edge_to(id)
                        && graph.flow_edges_upto(graph.edge_count())[k].2 as int
                            == graph.edge_flow(id);
                assert(listing@[k].0 as int == graph.edge_from(id));
            }
            assert forall|u2: int, j: int|
                0 <= u2 < size && 0 <= j < (self.edges[u2])@.len()
                    implies unit_edge_for(graph, u2,
                        (#[trigger] (self.edges[u2])@[j]) + size) by {
                assert(unit_edge_for(g_built, u2, (self.edges[u2])@[j] + size));
                let id = choose|id: int|
                    0 <= id < g_built.edge_count() && id % 2 == 0
                        && (#[trigger] g_built.edge_from(id)) == u2
                        && g_built.edge_to(id) == (self.edges[u2])@[j] + size
                        && g_built.edge_cap(id) == 1;
                assert(graph.edge_from(id) == g_built.edge_from(id));
                assert(graph.edge_to(id) == g_built.edge_to(id));
                assert(graph.edge_cap(id) == g_built.edge_cap(id));
            }
        }
        let mut seen_u: Vec<bool> = Vec::new();
        while seen_u.len() < size
            invariant
                seen_u.len() <= size,
                forall|j: int| 0 <= j < seen_u.len() ==> !seen_u[j],
            decreases size - seen_u.len(),
        {
            seen_u.push(false);
        }
        let mut seen_v: Vec<bool> = Vec::new();
        while seen_v.len() < size
            invariant
                seen_v.len() <= size,
                forall|j: int| 0 <= j < seen_v.len() ==> !seen_v[j],
            decreases size - seen_v.len(),
        {
            seen_v.push(false);
        }
        proof {
            lemma_count_true_all_false(seen_u@);
            lemma_count_true_all_false(seen_v@);
        }
        let mut edges: Vec<(usize, usize)> = Vec::with_capacity(if flow >= 0 {
            flow as usize
        } else {
            0
        });
        let mut t: usize = 0;
        while t < listing.len()
            invariant
                t <= listing.len(),
                size == self.size,
                self.wf(),
                graph.wf(),
                graph.adj_complete(),
                graph.conserving(),
                bipartite_shape(graph, size as int),
                forall|p: Seq<usize>| !(#[trigger] graph.residual_st_path(p)),
                seen_u.len() == size,
                seen_v.len() == size,
                edges.len() == count_true(seen_u@),
                forall|k: int| 0 <= k < listing@.len()
                    ==> graph.triple_is_flow_edge(#[trigger] listing@[k], graph.edge_count()),
                forall|id: int|
                    0 <= id < graph.edge_count() && id % 2 == 0
                        && #[trigger] graph.edge_flow(id) >= 1
                        ==> exists|k: int|
                            0 <= k < listing@.len()
                                && (#[trigger] listing@[k]).0 as int == graph.edge_from(id)
                                && listing@[k].1 as int == graph.edge_to(id)
                                && listing@[k].2 as int == graph.edge_flow(id),
                forall|id: int|
                    0 <= id < graph.edge_count() && id % 2 == 0
                        && #[trigger] graph.edge_from(id) < size
                        ==> size <= graph.edge_to(id) < 2 * size
                            && self.has_edge(graph.edge_from(id), graph.edge_to(id) - size),
                forall|id: int|
                    0 <= id < graph.edge_count() && id % 2 == 0
                        && size <= #[trigger] graph.edge_to(id) < 2 * size
                        ==> graph.edge_from(id) < size,
                forall|u2: int, j: int|
                    0 <= u2 < size && 0 <= j < (self.edges[u2])@.len()
                        ==> unit_edge_for(graph, u2,
                            (#[trigger] (self.edges[u2])@[j]) + size),
                forall|j: int| 0 <= j < edges.len()
                    ==> (#[trigger] edges[j]).0 < size && edges[j].1 < size
                        && self.has_edge(edges[j].0 as int, edges[j].1 as int)
                        && seen_u[edges[j].0 as int] && seen_v[edges[j].1 as int],
                forall|j: int| 0 <= j < edges.len()
                    ==> flow_edge_for(graph, (#[trigger] edges[j]).0 as int,
                        edges[j].1 as int, size as int),
                forall|x: int| 0 <= x < size && #[trigger] seen_u@[x]
                    ==> exists|j: int| 0 <= j < edges.len()
                        && (#[trigger] edges[j]).0 as int == x,
                forall|y: int| 0 <= y < size && #[trigger] seen_v@[y]
                    ==> exists|j: int| 0 <= j < edges.len()
                        && (#[trigger] edges[j]).1 as int == y,
                forall|t2: int|
                    0 <= t2 < t && (#[trigger] listing@[t2]).0 < size
                        ==> seen_u@[listing@[t2].0 as int]
                            || seen_v@[listing@[t2].1 as int - size],
                forall|j1: int, j2: int|
                    0 <= j1 < edges.len() && 0 <= j2 < edges.len() && j1 != j2
                        ==> (#[trigger] edges[j1]).0 != (#[trigger] edges[j2]).0
                            && edges[j1].1 != edges[j2].1,
            decreases listing.len() - t,
        {
            let (a, b, _flow_amt) = listing[t];
            if a < size {
                proof {
                    assert(graph.triple_is_flow_edge(listing@[t as int], graph.edge_count()));
                    let id = choose|id: int|
                        0 <= id < graph.edge_count() && id % 2 == 0
                            && (#[trigger] graph.edge_from(id)) == listing@[t as int].0 as int
                            && graph.edge_to(id) == listing@[t as int].1 as int
                            && graph.edge_flow(id) == listing@[t as int].2 as int
                            && graph.edge_flow(id) >= 1;
                    assert(size <= graph.edge_to(id) < 2 * size);
                    assert(self.has_edge(a as int, b as int - size));
                }
                let b2 = b - size;
                if !seen_u[a] && !seen_v[b2] {
                    proof {
                        lemma_count_true_set(seen_u@, a as int);
                        lemma_count_true_bounds(seen_u@);
                    }
                    let ghost su0 = seen_u@;
                    let ghost sv0 = seen_v@;
                    let ghost ed0 = edges@;
                    seen_u.set(a, true);
                    seen_v.set(b2, true);
                    edges.push((a, b2));
                    proof {
                        let id = choose|id: int|
                            0 <= id < graph.edge_count() && id % 2 == 0
                                && (#[trigger] graph.edge_from(id))
                                    == listing@[t as int].0 as int
                                && graph.edge_to(id) == listing@[t as int].1 as int
                                && graph.edge_flow(id) == listing@[t as int].2 as int
                                && graph.edge_flow(id) >= 1;
                        assert(graph.edge_to(id) == b2 + size);
                        assert(flow_edge_for(graph, a as int, b2 as int, size as int));
                        assert(edges[edges.len() - 1] == (a, b2));
                        assert forall|x: int| 0 <= x < size && #[trigger] seen_u@[x]
                            implies exists|j: int| 0 <= j < edges.len()
                                && (#[trigger] edges[j]).0 as int == x by {
                            if x == a as int {
                                assert(edges[edges.len() - 1].0 as int == x);
                            } else {
                                assert(su0[x]);
                                let j = choose|j: int|
                                    0 <= j < ed0.len() && (#[trigger] ed0[j]).0 as int == x;
                                assert(edges[j].0 as int == x);
                            }
                        }
                        assert forall|y: int| 0 <= y < size && #[trigger] seen_v@[y]
                            implies exists|j: int| 0 <= j < edges.len()
                                && (#[trigger] edges[j]).1 as int == y by {
                            if y == b2 as int {
                                assert(edges[edges.len() - 1].1 as int == y);
                            } else {
                                assert(sv0[y]);
                                let j = choose|j: int|
                                    0 <= j < ed0.len() && (#[trigger] ed0[j]).1 as int == y;
                                assert(edges[j].1 as int == y);
                            }
                        }
                    }
                }
            }
            t += 1;
        }
        proof {
            lemma_count_true_bounds(seen_u@);
        }
        let r = Match { edges };
        proof {
            if r@.len() == self.size as int {
                assert forall|k: int| 0 <= k < self.size
                    implies r.lefts()[k] < self.size && r.rights()[k] < self.size by {}
                assert(is_perm_of(r.lefts(), self.size as int));
                assert(is_perm_of(r.rights(), self.size as int));
            }
            // Maximality: no edge of the graph joins an uncovered left
            // vertex to an uncovered right vertex. If one did, the three
            // unit edges through it would form an augmenting path, which
            // the flow run has certified away.
            assert forall|uu: usize, vv: usize|
                uu < self.size && vv < self.size
                    && #[trigger] self.has_edge(uu as int, vv as int)
                    implies r.lefts().contains(uu) || r.rights().contains(vv) by {
                if !r.lefts().contains(uu) && !r.rights().contains(vv) {
                    lemma_edge_covered(graph, *self, r@, seen_u@, seen_v@, listing@, uu, vv);
                    if exists|j: int| 0 <= j < r@.len() && (#[trigger] r@[j]).0 == uu {
                        let j = choose|j: int|
                            0 <= j < r@.len() && (#[trigger] r@[j]).0 == uu;
                        assert(r.lefts()[j] == uu);
                        assert(r.lefts().contains(uu));
                    } else {
                        let j = choose|j: int|
                            0 <= j < r@.len() && (#[trigger] r@[j]).1 == vv;
                        assert(r.rights()[j] == vv);
                        assert(r.rights().contains(vv));
                    }
                }
            }
        }
        r
    }
}

/// A sequence of false entries has no true ones.
proof fn lemma_count_true_all_false(s: Seq<bool>)
    requires
        forall|j: int| 0 <= j < s.len() ==> !s[j],
    ensures
        count_true(s) == 0,
    decreases s.len(),
{
    if s.len() > 0 {
        lemma_count_true_all_false(s.drop_last());
    }
}

} // verus!
