# lattix

Graph analysis for knowledge graphs, with a verified core.

- `src/` is the Verus library. It holds what the algorithms compute on
  integers and graph structure, each function with a contract:
  - `metrics`: rank metrics for link prediction (mean rank, Hits@k, adjusted
    mean rank, realistic rank, per-relation grouping) as exact ratios, with
    the errors for invalid input;
  - `adjacency`: deduplicated, sorted adjacency rows in either direction or
    undirected, where parallel edges collapse into one neighbor;
  - `closeness`: breadth-first shortest distances and classic
    (Wasserman-Faust) closeness;
  - `ranking`: top-n selection in a total order with identifier tie-breaks;
  - `random_walk`: iteration seeds and shuffled start orders, seeded uniform
    random walks, the step-by-step biased (node2vec) walk with its transition
    classes, and the dense walk corpus;
  - `graph`: the trusted accessors through which `petgraph` graphs are read.
- `app/` is ordinary Rust around it: the floating-point algorithms
  (PageRank, personalized PageRank, harmonic closeness, the weighted draw of
  a biased node2vec step, reciprocal ranks), their configurations and errors, the parallel
  walk driver, and the `graphops` adapter.
- `tests/` exercises the library from outside.
