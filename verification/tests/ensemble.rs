use permanent::cooling_state::State;
use permanent::graph::{Graph, Match};
use permanent::markov_chain::{AtomicMatrix, Config};
use permanent::{Cli, Filter};

#[test]
fn activity_of_edges() {
    let graph = Graph {
        size: 4,
        edges: vec![vec![0], vec![1], vec![2], vec![3]],
    };
    let state = State::from_graph(&graph);
    assert_eq!(state.dimension(), 4);
    for u in 0..4 {
        for v in 0..4 {
            assert_eq!(state.activity_of_edge(u, v), if u == v { 1 } else { 0 });
        }
    }
}

#[test]
fn active_count_of_identity_box() {
    let graph = Graph {
        size: 4,
        edges: vec![vec![0], vec![1], vec![2], vec![3]],
    };
    let state = State::from_graph(&graph);
    let matching = graph.find_match();
    assert_eq!(state.active_count_of_match(&matching), 4);
}

#[test]
fn cached_active_count_matches_recount_after_swap() {
    let graph = Graph {
        size: 6,
        edges: vec![vec![0, 1], vec![1], vec![2, 3], vec![3], vec![4], vec![5, 0]],
    };
    let state = State::from_graph(&graph);
    let mut matching = Match::random(6);
    let mut count = state.active_count_of_match(&matching);
    for (i, j) in [(0usize, 3usize), (1, 2), (4, 5), (0, 5), (2, 4)] {
        let predicted = state.active_count_after_swap(&matching, i, j, count);
        matching.apply_swap(i, j);
        let recount = state.active_count_of_match(&matching);
        assert_eq!(predicted, recount);
        count = recount;
    }
}

#[test]
fn histogram_counts_increments() {
    let mut h = AtomicMatrix::new(4);
    assert_eq!(h.dimension(), 4);
    assert_eq!(h.get(2, 3), 0);
    h.inc(2, 3);
    h.inc(2, 3);
    h.inc(0, 0);
    assert_eq!(h.get(2, 3), 2);
    assert_eq!(h.get(0, 0), 1);
    assert_eq!(h.get(3, 2), 0);
}

#[test]
fn config_default_values() {
    let config = Config::default();
    assert_eq!(config.num_of_chains, 1024);
    assert_eq!(config.warmup_times, 16384);
    assert_eq!(config.weight_sample_intervals, 8);
    assert_eq!(config.estimator_sample_intervals, 128);
    assert_eq!(config.num_of_weight_estimations, 2048);
    assert_eq!(config.num_of_estimator_estimations, 16);
}

#[test]
fn cli_holds_driver_settings() {
    let cli = Cli {
        graph_path: String::from("graph.json"),
        num_of_chains: 2048,
        warmup_times: 16384,
        weight_sample_intervals: 16,
        estimator_sample_intervals: 128,
        num_of_weight_estimations: 2048,
        num_of_estimator_estimations: 64,
        num_of_threads: None,
        additive_slow_down: 1,
        mutiplicative_slow_down: 1,
        filter: Filter::Additive,
    };
    assert_eq!(cli.filter, Filter::Additive);
    assert_ne!(cli.filter, Filter::Constant);
    assert_eq!(cli.num_of_chains, 2048);
    assert!(cli.num_of_threads.is_none());
}
