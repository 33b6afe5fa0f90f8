//! Tests of the topological layering engine.

use uml_generator::helper::calc_rank;
use uml_generator::helper::topological_order;
use uml_generator::helper::topological_sort_edges;
use uml_generator::LayoutError;

fn position(order: &[usize], v: usize) -> usize {
    order.iter().position(|&x| x == v).expect("entity missing from order")
}

#[test]
fn order_covers_every_entity_and_edge() {
    let edges = vec![(1, 2), (2, 4), (3, 6), (1, 5), (2, 3), (3, 4), (5, 6)];
    let order = topological_order(7, &edges).expect("graph is acyclic");
    assert_eq!(order.len(), 7);
    let mut seen = order.clone();
    seen.sort();
    assert_eq!(seen, vec![1, 2, 3, 4, 5, 6, 7]);
    for &(a, b) in &edges {
        assert!(position(&order, a) < position(&order, b));
    }
}

#[test]
fn sorted_edges_follow_the_order() {
    let edges = vec![(1, 2), (2, 4), (3, 6), (1, 5), (2, 3), (3, 4), (5, 6)];
    let sorted = topological_sort_edges(7, &edges).expect("graph is acyclic");
    assert_eq!(sorted.len(), 7);
    let mut copy = sorted.clone();
    let mut orig = edges.clone();
    copy.sort();
    orig.sort();
    assert_eq!(copy, orig);
    // all edges into an entity stand before all edges out of it
    for i in 0..sorted.len() {
        for j in 0..sorted.len() {
            if sorted[i].1 == sorted[j].0 {
                assert!(i < j);
            }
        }
    }
}

#[test]
fn ranks_satisfy_the_edge_invariant() {
    // the first scenario: seven entities, seven relations
    let nodes: Vec<u8> = vec![0; 7];
    let edges = vec![(1, 2), (2, 4), (3, 6), (1, 5), (2, 3), (3, 4), (5, 6)];
    let sorted = topological_sort_edges(7, &edges).expect("graph is acyclic");
    let ranks = calc_rank(&nodes, &sorted);
    assert_eq!(ranks.len(), 8);
    for &(a, b) in &edges {
        assert!(ranks[b] >= ranks[a] + 1, "edge ({}, {}) not layered", a, b);
    }
    assert_eq!(ranks[1], 1);
    assert_eq!(ranks[7], 1);
    assert!(ranks[2] >= 2);
    assert!(ranks[4] >= ranks[2] + 1);
}

#[test]
fn three_cycle_is_detected() {
    let edges = vec![(1, 2), (2, 3), (3, 1)];
    assert_eq!(topological_order(3, &edges), Err(LayoutError::CycleDetected));
    assert_eq!(topological_sort_edges(3, &edges), Err(LayoutError::CycleDetected));
}

#[test]
fn self_loop_is_detected() {
    let edges = vec![(2, 2)];
    assert_eq!(topological_order(2, &edges), Err(LayoutError::CycleDetected));
}

#[test]
fn empty_graph_orders_nothing() {
    let edges: Vec<(usize, usize)> = vec![];
    assert_eq!(topological_order(0, &edges), Ok(vec![]));
    let order = topological_order(3, &edges).expect("no edges, no cycle");
    assert_eq!(order, vec![1, 2, 3]);
}

#[test]
fn rank_of_a_chain_counts_its_depth() {
    let nodes: Vec<u8> = vec![0; 4];
    let edges = vec![(1, 2), (2, 3), (3, 4)];
    let sorted = topological_sort_edges(4, &edges).expect("chain is acyclic");
    let ranks = calc_rank(&nodes, &sorted);
    assert_eq!(&ranks[1..], &[1, 2, 3, 4]);
}

#[test]
fn cycle_error_names_itself() {
    assert_eq!(LayoutError::CycleDetected.as_str(), "cyclic graph");
}
