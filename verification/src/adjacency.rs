//! A compact adjacency view whose rows hold sorted, unique node indices.
//!
//! Building it once lets the algorithms share one unweighted adjacency, and
//! parallel edges (several relations between the same two entities) collapse
//! into a single neighbor, so they never act as implicit edge weights.

use petgraph::Graph;
use vstd::prelude::*;
use crate::graph::{edge_endpoints, endpoints_below, graph_edges, graph_node_count, has_edge, node_count};

verus! {

broadcast use vstd::seq_lib::group_to_multiset_ensures;

/// Which endpoint of an edge selects the row it is listed in.
#[derive(Debug, Clone, Copy, PartialEq, Eq, Structural)]
pub enum EdgeDirection {
    /// Row `u` lists the targets of the edges leaving `u`.
    Outgoing,
    /// Row `v` lists the sources of the edges entering `v`.
    Incoming,
}

/// Strictly increasing, hence free of duplicates.
pub open spec fn strictly_sorted(s: Seq<usize>) -> bool {
    forall|i: int, j: int| 0 <= i < j < s.len() ==> s[i] < s[j]
}

/// Nondecreasing.
pub open spec fn sorted(s: Seq<usize>) -> bool {
    forall|i: int, j: int| 0 <= i <= j < s.len() ==> s[i] <= s[j]
}

/// In the given direction, `x` is a neighbor of `row`.
pub open spec fn joined(edges: Seq<(usize, usize)>, direction: EdgeDirection, row: int, x: int) -> bool {
    match direction {
        EdgeDirection::Outgoing => has_edge(edges, row, x),
        EdgeDirection::Incoming => has_edge(edges, x, row),
    }
}

/// Ignoring direction, `x` is a neighbor of `row`.
pub open spec fn touches(edges: Seq<(usize, usize)>, row: int, x: int) -> bool {
    has_edge(edges, row, x) || has_edge(edges, x, row)
}

/// Every listed neighbor is a node.
pub open spec fn rows_in_range(rows: Seq<Seq<usize>>) -> bool {
    forall|u: int, j: int| 0 <= u < rows.len() && 0 <= j < rows[u].len() ==> #[trigger] rows[u][j] < rows.len()
}

/// Every row is strictly sorted.
pub open spec fn rows_sorted(rows: Seq<Seq<usize>>) -> bool {
    forall|v: int| 0 <= v < rows.len() ==> strictly_sorted(#[trigger] rows[v])
}

/// `rows` is the deduplicated adjacency of `n` nodes and `edges` in `direction`.
pub open spec fn directed_rows(rows: Seq<Seq<usize>>, n: nat, edges: Seq<(usize, usize)>, direction: EdgeDirection) -> bool {
    &&& rows.len() == n
    &&& rows_sorted(rows)
    &&& forall|v: int, x: usize| 0 <= v < n ==> (#[trigger] rows[v].contains(x) <==> joined(edges, direction, v, x as int))
}

/// `rows` is the deduplicated undirected adjacency of `n` nodes and `edges`.
pub open spec fn undirected_rows(rows: Seq<Seq<usize>>, n: nat, edges: Seq<(usize, usize)>) -> bool {
    &&& rows.len() == n
    &&& rows_sorted(rows)
    &&& forall|v: int, x: usize| 0 <= v < n ==> (#[trigger] rows[v].contains(x) <==> touches(edges, v, x as int))
}

/// A strictly sorted sequence is determined by its elements.
pub proof fn lemma_strictly_sorted_unique(a: Seq<usize>, b: Seq<usize>)
    requires
        strictly_sorted(a),
        strictly_sorted(b),
        forall|x: usize| #[trigger] a.contains(x) <==> b.contains(x),
    ensures
        a == b,
    decreases a.len(),
{
    if a.len() == 0 {
        if b.len() > 0 {
            assert(b.contains(b[0]));
            assert(a.contains(b[0]));
        }
        assert(a =~= b);
    } else {
        assert(a.contains(a[0]));
        assert(b.contains(a[0]));
        assert(b.len() > 0);
        assert(b.contains(b[0]));
        assert(a.contains(b[0]));
        let k = choose|k: int| 0 <= k < b.len() && b[k] == a[0];
        let m = choose|m: int| 0 <= m < a.len() && a[m] == b[0];
        if k > 0 {
            assert(b[0] < b[k]);
            if m > 0 {
                assert(a[0] < a[m]);
            }
        }
        assert(a[0] == b[0]);
        let a1 = a.drop_first();
        let b1 = b.drop_first();
        assert forall|x: usize| #[trigger] a1.contains(x) <==> b1.contains(x) by {
            if a1.contains(x) {
                let i = choose|i: int| 0 <= i < a1.len() && a1[i] == x;
                assert(a[i + 1] == x);
                assert(a[0] < a[i + 1]);
                assert(a.contains(x));
                assert(b.contains(x));
                let j = choose|j: int| 0 <= j < b.len() && b[j] == x;
                assert(j != 0);
                assert(b1[j - 1] == x);
            }
            if b1.contains(x) {
                let i = choose|i: int| 0 <= i < b1.len() && b1[i] == x;
                assert(b[i + 1] == x);
                assert(b[0] < b[i + 1]);
                assert(b.contains(x));
                assert(a.contains(x));
                let j = choose|j: int| 0 <= j < a.len() && a[j] == x;
                assert(j != 0);
                assert(a1[j - 1] == x);
            }
        }
        lemma_strictly_sorted_unique(a1, b1);
        assert(a =~= b1.insert(0, b[0]));
        assert(b =~= b1.insert(0, b[0]));
    }
}

/// Parallel edges do not matter: two edge lists with the same set of
/// `(source, target)` pairs give the same adjacency rows.
pub proof fn lemma_rows_depend_only_on_edge_set(
    rows1: Seq<Seq<usize>>,
    rows2: Seq<Seq<usize>>,
    n: nat,
    edges1: Seq<(usize, usize)>,
    edges2: Seq<(usize, usize)>,
    direction: EdgeDirection,
)
    requires
        directed_rows(rows1, n, edges1, direction),
        directed_rows(rows2, n, edges2, direction),
        forall|u: int, v: int| #[trigger] has_edge(edges1, u, v) <==> has_edge(edges2, u, v),
    ensures
        rows1 == rows2,
{
    assert forall|v: int| 0 <= v < n implies rows1[v] == rows2[v] by {
        assert forall|x: usize| #[trigger] rows1[v].contains(x) <==> rows2[v].contains(x) by {
            assert(rows1[v].contains(x) <==> joined(edges1, direction, v, x as int));
            assert(rows2[v].contains(x) <==> joined(edges2, direction, v, x as int));
        }
        lemma_strictly_sorted_unique(rows1[v], rows2[v]);
    }
    assert(rows1 =~= rows2);
}

/// The incoming adjacency is the transpose of the outgoing adjacency, and the
/// undirected adjacency is their union, hence symmetric.
pub proof fn lemma_incoming_is_transpose(
    outgoing: Seq<Seq<usize>>,
    incoming: Seq<Seq<usize>>,
    undirected: Seq<Seq<usize>>,
    n: nat,
    edges: Seq<(usize, usize)>,
)
    requires
        directed_rows(outgoing, n, edges, EdgeDirection::Outgoing),
        directed_rows(incoming, n, edges, EdgeDirection::Incoming),
        undirected_rows(undirected, n, edges),
    ensures
        forall|u: usize, v: usize| u < n && v < n ==> (#[trigger] outgoing[u as int].contains(v) <==> #[trigger] incoming[v as int].contains(u)),
        forall|u: usize, v: usize| u < n ==> (#[trigger] undirected[u as int].contains(v) <==> outgoing[u as int].contains(v) || incoming[u as int].contains(v)),
        forall|u: usize, v: usize| u < n && v < n ==> (#[trigger] undirected[u as int].contains(v) <==> #[trigger] undirected[v as int].contains(u)),
{
}

/// Every neighbor listed in a row is a node of the graph.
pub proof fn lemma_rows_in_range(rows: Seq<Seq<usize>>, n: nat, edges: Seq<(usize, usize)>, direction: EdgeDirection)
    requires
        directed_rows(rows, n, edges, direction) || undirected_rows(rows, n, edges),
        endpoints_below(edges, n),
    ensures
        rows_in_range(rows),
{
    assert forall|v: int, j: int| 0 <= v < n && 0 <= j < rows[v].len() implies #[trigger] rows[v][j] < n by {
        let x = rows[v][j];
        assert(rows[v].contains(x));
        if directed_rows(rows, n, edges, direction) {
            assert(joined(edges, direction, v, x as int));
        } else {
            assert(touches(edges, v, x as int));
        }
    }
}

/// Unweighted adjacency rows of sorted, unique node indices.
pub struct DedupAdjacency(Vec<Vec<usize>>);

impl View for DedupAdjacency {
    type V = Seq<Seq<usize>>;

    closed spec fn view(&self) -> Seq<Seq<usize>> {
        Seq::new(self.0@.len(), |i: int| self.0@[i]@)
    }
}

/// `slice::sort_unstable`: sorts the row into nondecreasing order, keeping
/// exactly the same elements.
#[verifier::external_body]
fn sort_unstable(row: &mut Vec<usize>)
    ensures
        final(row)@.to_multiset() == old(row)@.to_multiset(),
        sorted(final(row)@),
{
    row.sort_unstable();
}

/// The elements of a sorted row, each once.
fn dedup_sorted(row: &Vec<usize>) -> (unique: Vec<usize>)
    requires
        sorted(row@),
    ensures
        strictly_sorted(unique@),
        forall|x: usize| #[trigger] unique@.contains(x) <==> row@.contains(x),
{
    let mut unique: Vec<usize> = Vec::new();
    let mut i: usize = 0;
    while i < row.len()
        invariant
            i <= row.len(),
            sorted(row@),
            strictly_sorted(unique@),
            forall|x: usize| #[trigger] unique@.contains(x) <==> exists|j: int| 0 <= j < i && row@[j] == x,
            i > 0 ==> unique@.len() > 0 && unique@.last() == row@[i - 1],
            i == 0 ==> unique@.len() == 0,
        decreases row.len() - i,
    {
        let x = row[i];
        let ghost old_u = unique@;
        if unique.len() == 0 || unique[unique.len() - 1] != x {
            proof {
                if unique@.len() > 0 {
                    assert(row@[i - 1] <= row@[i as int]);
                }
            }
            unique.push(x);
            proof {
                assert(unique@ == old_u.push(x));
                assert forall|y: usize| #[trigger] unique@.contains(y) <==> exists|j: int| 0 <= j < i + 1 && row@[j] == y by {
                    if unique@.contains(y) && y != x {
                        let k = choose|k: int| 0 <= k < unique@.len() && unique@[k] == y;
                        assert(old_u[k] == y);
                        assert(old_u.contains(y));
                    }
                    if exists|j: int| 0 <= j < i + 1 && row@[j] == y {
                        let j = choose|j: int| 0 <= j < i + 1 && row@[j] == y;
                        if j < i {
                            assert(old_u.contains(y));
                            let k = choose|k: int| 0 <= k < old_u.len() && old_u[k] == y;
                            assert(unique@[k] == y);
                        } else {
                            assert(unique@[unique@.len() - 1] == y);
                        }
                    }
                }
            }
        } else {
            proof {
                assert forall|y: usize| #[trigger] unique@.contains(y) <==> exists|j: int| 0 <= j < i + 1 && row@[j] == y by {
                    if exists|j: int| 0 <= j < i + 1 && row@[j] == y {
                        let j = choose|j: int| 0 <= j < i + 1 && row@[j] == y;
                        if j == i {
                            assert(unique@[unique@.len() - 1] == y);
                        }
                    }
                    if unique@.contains(y) {
                        assert(exists|j: int| 0 <= j < i && row@[j] == y);
                    }
                }
            }
        }
        i = i + 1;
    }
    proof {
        assert forall|x: usize| #[trigger] unique@.contains(x) <==> row@.contains(x) by {
            if row@.contains(x) {
                let j = choose|j: int| 0 <= j < row@.len() && row@[j] == x;
                assert(exists|j: int| 0 <= j < i && row@[j] == x);
            }
        }
    }
    unique
}

/// The edges of a one-longer prefix are those of the prefix plus the next edge.
proof fn lemma_has_edge_prefix_step(edges: Seq<(usize, usize)>, i: int)
    requires
        0 <= i < edges.len(),
    ensures
        forall|u: int, w: int| #[trigger] has_edge(edges.subrange(0, i + 1), u, w) <==> has_edge(edges.subrange(0, i), u, w) || (edges[i].0 == u && edges[i].1 == w),
{
    let prefix = edges.subrange(0, i);
    let next = edges.subrange(0, i + 1);
    assert forall|u: int, w: int| #[trigger] has_edge(next, u, w) <==> has_edge(prefix, u, w) || (edges[i].0 == u && edges[i].1 == w) by {
        if has_edge(next, u, w) {
            let k = choose|k: int| 0 <= k < next.len() && next[k].0 == u && next[k].1 == w;
            if k < i {
                assert(prefix[k] == next[k]);
            }
        }
        if has_edge(prefix, u, w) {
            let k = choose|k: int| 0 <= k < prefix.len() && prefix[k].0 == u && prefix[k].1 == w;
            assert(next[k] == prefix[k]);
        }
        if edges[i].0 == u && edges[i].1 == w {
            assert(next[i] == edges[i]);
        }
    }
}

/// Appending `x` to `s` adds exactly `x` to its elements.
proof fn lemma_push_contains(s: Seq<usize>, x: usize)
    ensures
        forall|y: usize| #[trigger] s.push(x).contains(y) <==> s.contains(y) || y == x,
{
    assert forall|y: usize| #[trigger] s.push(x).contains(y) <==> s.contains(y) || y == x by {
        if s.push(x).contains(y) && y != x {
            let k = choose|k: int| 0 <= k < s.push(x).len() && s.push(x)[k] == y;
            assert(s[k] == y);
        }
        if s.contains(y) {
            let k = choose|k: int| 0 <= k < s.len() && s[k] == y;
            assert(s.push(x)[k] == y);
        }
        if y == x {
            assert(s.push(x)[s.len() as int] == y);
        }
    }
}

/// `n` empty rows.
fn empty_rows(n: usize) -> (rows: Vec<Vec<usize>>)
    ensures
        rows@.len() == n,
        forall|w: int| 0 <= w < n ==> (#[trigger] rows@[w])@.len() == 0,
{
    let mut rows: Vec<Vec<usize>> = Vec::new();
    let mut v: usize = 0;
    while v < n
        invariant
            v <= n,
            rows@.len() == v,
            forall|w: int| 0 <= w < v ==> (#[trigger] rows@[w])@.len() == 0,
        decreases n - v,
    {
        rows.push(Vec::new());
        v = v + 1;
    }
    rows
}

impl DedupAdjacency {
    /// Sort and deduplicate every row.
    pub fn finish(rows: Vec<Vec<usize>>) -> (adj: Self)
        ensures
            adj@.len() == rows@.len(),
            rows_sorted(adj@),
            forall|v: int, x: usize| 0 <= v < rows@.len() ==> (#[trigger] adj@[v].contains(x) <==> rows@[v]@.contains(x)),
    {
        let mut result: Vec<Vec<usize>> = Vec::new();
        let mut v: usize = 0;
        while v < rows.len()
            invariant
                v <= rows.len(),
                result@.len() == v,
                forall|w: int| 0 <= w < v ==> strictly_sorted(#[trigger] result@[w]@),
                forall|w: int, x: usize| 0 <= w < v ==> (#[trigger] result@[w]@.contains(x) <==> rows@[w]@.contains(x)),
            decreases rows.len() - v,
        {
            let mut row = rows[v].clone();
            proof {
                assert(row@ == rows@[v as int]@);
            }
            let ghost before = row@;
            sort_unstable(&mut row);
            proof {
                assert forall|x: usize| #[trigger] row@.contains(x) <==> before.contains(x) by {
                    assert(row@.contains(x) <==> row@.to_multiset().count(x) > 0);
                    assert(before.contains(x) <==> before.to_multiset().count(x) > 0);
                }
            }
            let unique = dedup_sorted(&row);
            result.push(unique);
            v = v + 1;
        }
        let adj = DedupAdjacency(result);
        proof {
            assert forall|w: int, x: usize| 0 <= w < rows@.len() implies (#[trigger] adj@[w].contains(x) <==> rows@[w]@.contains(x)) by {
                assert(adj@[w] == result@[w]@);
            }
            assert forall|w: int| 0 <= w < adj@.len() implies strictly_sorted(#[trigger] adj@[w]) by {
                assert(adj@[w] == result@[w]@);
            }
        }
        adj
    }

    /// The rows of the adjacency.
    pub fn rows(&self) -> (rows: &[Vec<usize>])
        ensures
            rows@.len() == self@.len(),
            forall|v: int| 0 <= v < rows@.len() ==> #[trigger] rows@[v]@ == self@[v],
    {
        self.0.as_slice()
    }

    /// Number of nodes (rows).
    pub fn node_count(&self) -> (n: usize)
        ensures
            n == self@.len(),
    {
        self.0.len()
    }

    /// Sorted, unique neighbors of `node`.
    pub fn neighbors_ref(&self, node: usize) -> (neighbors: &[usize])
        requires
            node < self@.len(),
        ensures
            neighbors@ == self@[node as int],
    {
        self.0[node].as_slice()
    }

    /// Number of distinct neighbors of `node`.
    pub fn out_degree(&self, node: usize) -> (degree: usize)
        requires
            node < self@.len(),
        ensures
            degree == self@[node as int].len(),
    {
        self.0[node].len()
    }

    /// Adjacency of `node_count` nodes and `(source, target)` edges in
    /// `direction`, with parallel edges merged.
    pub fn from_edges(node_count: usize, edges: &[(usize, usize)], direction: EdgeDirection) -> (adj: Self)
        requires
            endpoints_below(edges@, node_count as nat),
        ensures
            directed_rows(adj@, node_count as nat, edges@, direction),
            rows_in_range(adj@),
    {
        let mut rows = empty_rows(node_count);
        let mut i: usize = 0;
        while i < edges.len()
            invariant
                i <= edges.len(),
                endpoints_below(edges@, node_count as nat),
                rows@.len() == node_count,
                forall|w: int, x: usize| 0 <= w < node_count ==> (#[trigger] rows@[w]@.contains(x) <==> joined(edges@.subrange(0, i as int), direction, w, x as int)),
            decreases edges.len() - i,
        {
            let (source, target) = edges[i];
            let (row, neighbor) = match direction {
                EdgeDirection::Outgoing => (source, target),
                EdgeDirection::Incoming => (target, source),
            };
            let ghost old_rows = rows@;
            rows[row].push(neighbor);
            proof {
                let next = edges@.subrange(0, i as int + 1);
                lemma_has_edge_prefix_step(edges@, i as int);
                assert forall|w: int, x: usize| 0 <= w < node_count implies (#[trigger] rows@[w]@.contains(x) <==> joined(next, direction, w, x as int)) by {
                    if w == row as int {
                        assert(rows@[w]@ == old_rows[w]@.push(neighbor));
                        lemma_push_contains(old_rows[w]@, neighbor);
                    } else {
                        assert(rows@[w] == old_rows[w]);
                    }
                }
            }
            i = i + 1;
        }
        proof {
            assert(edges@.subrange(0, edges.len() as int) =~= edges@);
        }
        let adj = Self::finish(rows);
        proof {
            assert forall|w: int, x: usize| 0 <= w < node_count implies (#[trigger] adj@[w].contains(x) <==> joined(edges@, direction, w, x as int)) by {
                assert(adj@[w].contains(x) <==> rows@[w]@.contains(x));
            }
            lemma_rows_in_range(adj@, node_count as nat, edges@, direction);
        }
        adj
    }

    /// Undirected adjacency of `node_count` nodes and `(source, target)`
    /// edges: each edge is listed in the rows of both endpoints, and parallel
    /// edges are merged.
    pub fn from_edges_undirected(node_count: usize, edges: &[(usize, usize)]) -> (adj: Self)
        requires
            endpoints_below(edges@, node_count as nat),
        ensures
            undirected_rows(adj@, node_count as nat, edges@),
            rows_in_range(adj@),
    {
        let mut rows = empty_rows(node_count);
        let mut i: usize = 0;
        while i < edges.len()
            invariant
                i <= edges.len(),
                endpoints_below(edges@, node_count as nat),
                rows@.len() == node_count,
                forall|w: int, x: usize| 0 <= w < node_count ==> (#[trigger] rows@[w]@.contains(x) <==> touches(edges@.subrange(0, i as int), w, x as int)),
            decreases edges.len() - i,
        {
            let (source, target) = edges[i];
            let ghost old_rows = rows@;
            rows[source].push(target);
            let ghost mid_rows = rows@;
            rows[target].push(source);
            proof {
                let next = edges@.subrange(0, i as int + 1);
                lemma_has_edge_prefix_step(edges@, i as int);
                assert forall|w: int, x: usize| 0 <= w < node_count implies (#[trigger] rows@[w]@.contains(x) <==> touches(next, w, x as int)) by {
                    lemma_push_contains(old_rows[w]@, target);
                    lemma_push_contains(mid_rows[w]@, source);
                    if w == source as int && w == target as int {
                        assert(rows@[w]@ == old_rows[w]@.push(target).push(source));
                    } else if w == source as int {
                        assert(rows@[w]@ == old_rows[w]@.push(target));
                    } else if w == target as int {
                        assert(rows@[w]@ == old_rows[w]@.push(source));
                    } else {
                        assert(rows@[w] == old_rows[w]);
                    }
                }
            }
            i = i + 1;
        }
        proof {
            assert(edges@.subrange(0, edges.len() as int) =~= edges@);
        }
        let adj = Self::finish(rows);
        proof {
            assert forall|w: int, x: usize| 0 <= w < node_count implies (#[trigger] adj@[w].contains(x) <==> touches(edges@, w, x as int)) by {
                assert(adj@[w].contains(x) <==> rows@[w]@.contains(x));
            }
            lemma_rows_in_range(adj@, node_count as nat, edges@, EdgeDirection::Outgoing);
        }
        adj
    }

    /// Deduplicated adjacency of a graph in `direction`.
    pub fn directed(graph: &Graph<String, String>, direction: EdgeDirection) -> (adj: Self)
        ensures
            directed_rows(adj@, graph_node_count(*graph), graph_edges(*graph), direction),
            rows_in_range(adj@),
    {
        let n = node_count(graph);
        let edges = edge_endpoints(graph);
        Self::from_edges(n, edges.as_slice(), direction)
    }

    /// Deduplicated undirected adjacency of a graph.
    pub fn undirected(graph: &Graph<String, String>) -> (adj: Self)
        ensures
            undirected_rows(adj@, graph_node_count(*graph), graph_edges(*graph)),
            rows_in_range(adj@),
    {
        let n = node_count(graph);
        let edges = edge_endpoints(graph);
        Self::from_edges_undirected(n, edges.as_slice())
    }
}

} // verus!
