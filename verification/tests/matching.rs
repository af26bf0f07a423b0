use permanent::filter::Proposal;
use permanent::graph::{Graph, Match};

fn graph_of(size: usize, rows: Vec<Vec<usize>>) -> Graph {
    Graph { size, edges: rows }
}

#[test]
fn box_graph_identity_matching() {
    let graph = graph_of(4, vec![vec![0], vec![1], vec![2], vec![3]]);
    assert!(graph.validate());
    let matching = graph.find_match();
    assert_eq!(matching.size(), graph.size);
    for k in 0..matching.size() {
        let (u, v) = matching.edge_at(k);
        assert_eq!(u, v);
    }
}

#[test]
fn four_cycle_has_perfect_matching() {
    let graph = graph_of(4, vec![vec![0, 1], vec![0, 1], vec![2, 3], vec![2, 3]]);
    assert!(graph.validate());
    let matching = graph.find_match();
    assert_eq!(matching.size(), 4);
    let mut seen_left = [false; 4];
    let mut seen_right = [false; 4];
    for k in 0..matching.size() {
        let (u, v) = matching.edge_at(k);
        assert!(!seen_left[u] && !seen_right[v]);
        seen_left[u] = true;
        seen_right[v] = true;
        assert!(graph.edges[u].contains(&v));
    }
}

#[test]
fn complete_graph_has_perfect_matching() {
    let graph = graph_of(3, vec![vec![0, 1, 2], vec![0, 1, 2], vec![0, 1, 2]]);
    let matching = graph.find_match();
    assert_eq!(matching.size(), 3);
}

#[test]
fn infeasible_graph_is_rejected() {
    let graph = graph_of(3, vec![vec![0], vec![0], vec![1]]);
    assert!(graph.validate());
    let matching = graph.find_match();
    assert_eq!(matching.size(), 2);
    assert_ne!(matching.size(), graph.size);
}

#[test]
fn random_match_is_permutation() {
    let matching = Match::random(10);
    assert_eq!(matching.size(), 10);
    let mut seen = [false; 10];
    for k in 0..10 {
        let (u, v) = matching.edge_at(k);
        assert_eq!(u, k);
        assert!(v < 10);
        assert!(!seen[v]);
        seen[v] = true;
    }
}

#[test]
fn swap_exchanges_right_endpoints() {
    let mut matching = Match::random(6);
    let (u1, v1) = matching.edge_at(1);
    let (u2, v2) = matching.edge_at(4);
    matching.apply_swap(1, 4);
    assert_eq!(matching.edge_at(1), (u1, v2));
    assert_eq!(matching.edge_at(4), (u2, v1));
    // Both projections are still permutations.
    let mut seen = [false; 6];
    for k in 0..6 {
        let (_, v) = matching.edge_at(k);
        assert!(!seen[v]);
        seen[v] = true;
    }
}

#[test]
fn choose_edge_pairs_returns_distinct_positions() {
    let matching = Match::random(5);
    for _ in 0..50 {
        let (i, j) = matching.choose_edge_pairs();
        assert!(i < 5 && j < 5 && i != j);
    }
}

#[test]
fn proposal_reads_both_edges() {
    let matching = Match::random(5);
    let (u1, v1) = matching.edge_at(0);
    let (u2, v2) = matching.edge_at(3);
    let proposal = Proposal::of_match(&matching, 0, 3);
    assert_eq!((proposal.u1, proposal.v1), (u1, v1));
    assert_eq!((proposal.u2, proposal.v2), (u2, v2));
}

#[test]
fn duplicate_entries_are_tolerated() {
    let graph = graph_of(2, vec![vec![0, 0, 1], vec![1, 1]]);
    assert!(graph.validate());
    let matching = graph.find_match();
    assert_eq!(matching.size(), 2);
}

#[test]
fn validate_rejects_bad_rows() {
    let good = graph_of(2, vec![vec![0, 1], vec![1]]);
    assert!(good.validate());
    let out_of_range = graph_of(2, vec![vec![0, 2], vec![1]]);
    assert!(!out_of_range.validate());
    let wrong_len = graph_of(2, vec![vec![0]]);
    assert!(!wrong_len.validate());
}
