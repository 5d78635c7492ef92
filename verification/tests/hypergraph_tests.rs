use round_eliminator::hypergraph::HyperGraph;

#[test]
fn triangle_with_a_tail() {
    let g = HyperGraph::from_hyperedges(vec![vec![0, 1], vec![1, 2], vec![0, 2], vec![2, 3]]);
    assert!(g.is_clique(&vec![0, 1, 2]));
    assert!(g.is_clique(&vec![2, 3]));
    assert!(!g.is_clique(&vec![0, 1, 3]));
    let mut c = g.max_clique();
    c.sort();
    assert_eq!(c, vec![0, 1, 2]);
}

#[test]
fn hyperedges_of_three_nodes() {
    let g = HyperGraph::from_hyperedges(vec![vec![0, 1, 2], vec![0, 1, 3], vec![0, 2, 3], vec![1, 2, 3], vec![3, 4, 5]]);
    assert!(g.is_clique(&vec![0, 1, 2, 3]));
    assert!(!g.is_clique(&vec![0, 1, 4]));
    let mut c = g.max_clique();
    c.sort();
    assert_eq!(c, vec![0, 1, 2, 3]);
}

#[test]
fn no_edges_no_clique() {
    let g = HyperGraph::from_hyperedges(vec![]);
    assert!(g.max_clique().is_empty());
    assert!(g.is_clique(&vec![]));
}
