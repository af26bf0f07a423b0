use permanent::dinic::DinicGraph;

#[test]
fn maxflow_example() {
    let mut g = DinicGraph::new(6, 0, 5);
    g.add_edge(0, 1, 16);
    g.add_edge(0, 2, 13);
    g.add_edge(1, 2, 10);
    g.add_edge(1, 3, 12);
    g.add_edge(2, 1, 4);
    g.add_edge(2, 4, 14);
    g.add_edge(3, 2, 9);
    g.add_edge(3, 5, 20);
    g.add_edge(4, 3, 7);
    g.add_edge(4, 5, 4);
    assert_eq!(g.calculate_flow(), 23);
    println!("{:?}", g.extract_current_flow());
}

#[test]
fn flow_extraction_lists_positive_flows() {
    let mut g = DinicGraph::new(4, 0, 3);
    g.add_edge(0, 1, 1);
    g.add_edge(1, 2, 1);
    g.add_edge(2, 3, 1);
    g.add_edge(0, 2, 0);
    assert_eq!(g.calculate_flow(), 1);
    let listing = g.extract_current_flow();
    assert_eq!(listing.len(), 3);
    for (_, _, f) in listing.iter() {
        assert!(*f >= 1);
    }
    assert!(listing.contains(&(0, 1, 1)));
    assert!(listing.contains(&(1, 2, 1)));
    assert!(listing.contains(&(2, 3, 1)));
    let again = g.current_flow();
    assert_eq!(again, listing);
}

#[test]
fn maxflow_is_stable_across_reruns() {
    let mut g = DinicGraph::new(4, 0, 3);
    g.add_edge(0, 1, 2);
    g.add_edge(0, 2, 3);
    g.add_edge(1, 3, 4);
    g.add_edge(2, 3, 1);
    let first = g.calculate_flow();
    assert_eq!(first, 3);
    assert_eq!(g.calculate_flow(), first);
}

#[test]
fn maxflow_disconnected_is_zero() {
    let mut g = DinicGraph::new(4, 0, 3);
    g.add_edge(0, 1, 5);
    g.add_edge(2, 3, 5);
    assert_eq!(g.calculate_flow(), 0);
    assert!(g.extract_current_flow().is_empty());
}
