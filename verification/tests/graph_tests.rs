use sketchbook::graph::{print_nodes, Graph};
use std::collections::HashSet;

fn sample() -> Graph {
    let mut g = Graph::new();
    let root = g.add_node("root".to_string(), 10).unwrap();
    let n1 = g.add_node("n1".to_string(), 11).unwrap();
    let n2 = g.add_node("n2".to_string(), 12).unwrap();
    let n3 = g.add_node("n3".to_string(), 13).unwrap();
    assert!(g.add_child(root, n1));
    assert!(g.add_child(root, n2));
    assert!(g.add_child(n1, n3));
    assert!(g.add_child(n3, root));
    g
}

#[test]
fn cycle_is_listed_once_depth_first() {
    let g = sample();
    let mut seen = HashSet::new();
    let mut out = Vec::new();
    print_nodes(&mut seen, &g, 0, &mut out);
    assert_eq!(out, vec![0, 1, 3, 2]);
    assert_eq!(seen.len(), 4);
    print_nodes(&mut seen, &g, 0, &mut out);
    assert_eq!(out, vec![0, 1, 3, 2]);
}

#[test]
fn listing_from_inner_node() {
    let g = sample();
    let mut seen = HashSet::new();
    let mut out = Vec::new();
    print_nodes(&mut seen, &g, 2, &mut out);
    assert_eq!(out, vec![2]);
    print_nodes(&mut seen, &g, 1, &mut out);
    assert_eq!(out, vec![2, 1, 3, 0]);
}

#[test]
fn duplicate_ids_and_bad_indices_are_refused() {
    let mut g = sample();
    assert!(g.add_node("again".to_string(), 10).is_none());
    assert_eq!(g.nodes.len(), 4);
    assert!(!g.add_child(0, 7));
    assert!(!g.add_child(9, 0));
    assert_eq!(g.nodes[0].children, vec![1, 2]);
}
