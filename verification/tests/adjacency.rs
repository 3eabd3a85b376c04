use lattix::adjacency::{DedupAdjacency, EdgeDirection};
use petgraph::Graph;

#[test]
fn dedup_adjacency_preserves_direction_and_unique_nodes() {
    let mut graph: Graph<String, String> = Graph::new();
    let a = graph.add_node("A".to_string());
    let b = graph.add_node("B".to_string());
    let c = graph.add_node("C".to_string());
    graph.add_edge(a, b, "first".to_string());
    graph.add_edge(a, b, "parallel".to_string());
    graph.add_edge(b, b, "loop".to_string());

    let outgoing = DedupAdjacency::directed(&graph, EdgeDirection::Outgoing);
    assert_eq!(outgoing.node_count(), 3);
    assert_eq!(outgoing.neighbors_ref(a.index()), &[b.index()]);
    assert_eq!(outgoing.neighbors_ref(b.index()), &[b.index()]);
    assert!(outgoing.neighbors_ref(c.index()).is_empty());

    let incoming = DedupAdjacency::directed(&graph, EdgeDirection::Incoming);
    assert!(incoming.neighbors_ref(a.index()).is_empty());
    assert_eq!(incoming.neighbors_ref(b.index()), &[a.index(), b.index()]);
    assert!(incoming.neighbors_ref(c.index()).is_empty());

    let undirected = DedupAdjacency::undirected(&graph);
    assert_eq!(undirected.neighbors_ref(a.index()), &[b.index()]);
    assert_eq!(undirected.neighbors_ref(b.index()), &[a.index(), b.index()]);
    assert!(undirected.neighbors_ref(c.index()).is_empty());
}

#[test]
fn finish_sorts_and_deduplicates_rows() {
    let adj = DedupAdjacency::finish(vec![vec![3, 1, 3, 2, 1], vec![], vec![0, 0]]);
    let rows = adj.rows();
    assert_eq!(rows.len(), 3);
    assert_eq!(rows[0], vec![1, 2, 3]);
    assert!(rows[1].is_empty());
    assert_eq!(rows[2], vec![0]);
    assert_eq!(adj.out_degree(0), 3);
}

#[test]
fn parallel_edges_give_the_same_adjacency() {
    let single = DedupAdjacency::from_edges(3, &[(0, 1), (2, 1)], EdgeDirection::Outgoing);
    let repeated = DedupAdjacency::from_edges(
        3,
        &[(2, 1), (0, 1), (0, 1), (2, 1), (0, 1)],
        EdgeDirection::Outgoing,
    );
    assert_eq!(single.rows(), repeated.rows());
}

#[test]
fn incoming_is_transpose_and_undirected_is_symmetric() {
    let edges = [(0, 3), (3, 1), (1, 0), (2, 2), (0, 1)];
    let out = DedupAdjacency::from_edges(4, &edges, EdgeDirection::Outgoing);
    let inc = DedupAdjacency::from_edges(4, &edges, EdgeDirection::Incoming);
    let und = DedupAdjacency::from_edges_undirected(4, &edges);
    for u in 0..4 {
        for v in 0..4 {
            assert_eq!(out.neighbors_ref(u).contains(&v), inc.neighbors_ref(v).contains(&u));
            assert_eq!(und.neighbors_ref(u).contains(&v), und.neighbors_ref(v).contains(&u));
            assert_eq!(
                und.neighbors_ref(u).contains(&v),
                out.neighbors_ref(u).contains(&v) || inc.neighbors_ref(u).contains(&v)
            );
        }
    }
    assert_eq!(und.neighbors_ref(0), &[1, 3]);
}

#[test]
fn nodes_are_found_by_identifier() {
    let mut graph: Graph<String, String> = Graph::new();
    graph.add_node("Alice".to_string());
    graph.add_node("Bob".to_string());
    assert_eq!(lattix::graph::find_node(&graph, "Bob"), Some(1));
    assert_eq!(lattix::graph::find_node(&graph, "Alice"), Some(0));
    assert_eq!(lattix::graph::find_node(&graph, "Carol"), None);
}
