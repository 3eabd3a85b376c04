//! The labeled directed graph that the algorithms read.
//!
//! Graphs are `petgraph` graphs whose node weights are entity identifiers and
//! whose edge weights are relation names. The graph is read through the few
//! trusted accessors below; everything computed from what they return is
//! verified.

use petgraph::graph::NodeIndex;
use petgraph::Graph;
use vstd::prelude::*;

verus! {

#[verifier::external_type_specification]
#[verifier::external_body]
#[verifier::reject_recursive_types(N)]
#[verifier::reject_recursive_types(E)]
#[verifier::reject_recursive_types(Ty)]
#[verifier::reject_recursive_types(Ix)]
pub struct ExPetGraph<N, E, Ty, Ix>(petgraph::Graph<N, E, Ty, Ix>);

#[verifier::external_type_specification]
#[verifier::external_body]
pub struct ExDirected(petgraph::Directed);

/// Number of nodes of the graph.
pub uninterp spec fn graph_node_count(g: petgraph::Graph<String, String>) -> nat;

/// The `(source, target)` node indices of every edge, in edge-index order.
pub uninterp spec fn graph_edges(g: petgraph::Graph<String, String>) -> Seq<(usize, usize)>;

/// The label (entity identifier) of every node, in node-index order.
pub uninterp spec fn graph_labels(g: petgraph::Graph<String, String>) -> Seq<Seq<char>>;

/// The outgoing neighbors of a node, in the order in which the graph lists them.
pub uninterp spec fn graph_out_neighbors(g: petgraph::Graph<String, String>, node: usize) -> Seq<usize>;

/// Some edge goes from `u` to `v`.
pub open spec fn has_edge(edges: Seq<(usize, usize)>, u: int, v: int) -> bool {
    exists|i: int| 0 <= i < edges.len() && edges[i].0 == u && edges[i].1 == v
}

/// Every edge endpoint is a node index below `n`.
pub open spec fn endpoints_below(edges: Seq<(usize, usize)>, n: nat) -> bool {
    forall|i: int| 0 <= i < edges.len() ==> edges[i].0 < n && edges[i].1 < n
}

/// `Graph::node_count`: the number of nodes, which is also the number of node
/// labels. With 32-bit node indices a graph holds at most `u32::MAX` nodes.
#[verifier::external_body]
pub(crate) fn node_count(g: &Graph<String, String>) -> (n: usize)
    ensures
        n == graph_node_count(*g),
        n == graph_labels(*g).len(),
        n <= u32::MAX,
{
    g.node_count()
}

/// `Graph::raw_edges`, each edge taken as its `(source, target)` indices. A
/// graph only holds edges between its own nodes.
#[verifier::external_body]
pub(crate) fn edge_endpoints(g: &Graph<String, String>) -> (edges: Vec<(usize, usize)>)
    ensures
        edges@ == graph_edges(*g),
        endpoints_below(edges@, graph_node_count(*g)),
{
    g.raw_edges().iter().map(|e| (e.source().index(), e.target().index())).collect()
}

/// Indexing the graph by a node: a copy of the node's label.
#[verifier::external_body]
pub(crate) fn node_label(g: &Graph<String, String>, node: usize) -> (label: String)
    requires
        node < graph_node_count(*g),
    ensures
        label@ == graph_labels(*g)[node as int],
{
    g[NodeIndex::new(node)].clone()
}

/// `Graph::neighbors`: the targets of all edges from `node`, each once per
/// edge (the graph lists them in reverse order of edge addition).
#[verifier::external_body]
pub(crate) fn out_neighbors(g: &Graph<String, String>, node: usize) -> (neighbors: Vec<usize>)
    requires
        node < graph_node_count(*g),
    ensures
        neighbors@ == graph_out_neighbors(*g, node),
        forall|x: usize| #[trigger]
            neighbors@.contains(x) <==> has_edge(graph_edges(*g), node as int, x as int),
        forall|i: int| 0 <= i < neighbors@.len() ==> #[trigger] neighbors@[i] < graph_node_count(*g),
{
    g.neighbors(NodeIndex::new(node)).map(|n| n.index()).collect()
}

/// The number of nodes (entities) of the graph.
pub fn entity_count(g: &Graph<String, String>) -> (n: usize)
    ensures
        n == graph_node_count(*g),
        n == graph_labels(*g).len(),
        n <= u32::MAX,
{
    node_count(g)
}

/// The first node labeled `id`, if any.
pub fn find_node(g: &Graph<String, String>, id: &str) -> (found: Option<usize>)
    ensures
        found matches Some(i) ==> i < graph_node_count(*g) && graph_labels(*g)[i as int] == id@
            && forall|j: int| 0 <= j < i ==> graph_labels(*g)[j] != id@,
        found is None ==> forall|j: int| 0 <= j < graph_node_count(*g) ==> graph_labels(*g)[j] != id@,
{
    let n = node_count(g);
    let wanted = id.to_owned();
    let mut i: usize = 0;
    while i < n
        invariant
            i <= n,
            n == graph_node_count(*g),
            n == graph_labels(*g).len(),
            wanted@ == id@,
            forall|j: int| 0 <= j < i ==> graph_labels(*g)[j] != id@,
        decreases n - i,
    {
        let label = node_label(g, i);
        if label == wanted {
            return Some(i);
        }
        i = i + 1;
    }
    None
}

} // verus!
