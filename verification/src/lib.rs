//! Verified core of a knowledge-graph analysis library: rank metrics for link
//! prediction, deduplicated adjacency, breadth-first distances and closeness,
//! and seeded random walks.
//!
//! Graphs are `petgraph` graphs whose node weights are entity identifiers and
//! whose edge weights are relation names. Metric values are exact ratios of
//! integers.

pub mod adjacency;
pub mod closeness;
pub mod graph;
pub mod metrics;
pub mod random_walk;
pub mod ranking;

pub use adjacency::{DedupAdjacency, EdgeDirection};
pub use closeness::{bfs_distances, classic_closeness, ClassicCloseness, ClosenessConfig};
pub use metrics::{
    adjusted_mean_rank, group_ranks_by_relation, hits_at_k, mean_rank, realistic_rank,
    try_adjusted_mean_rank, try_hits_at_k, try_mean_rank, try_realistic_rank, validate_ranks,
    AdjustedMeanRank, MetricError, Ratio, ScoreKey,
};
pub use ranking::{top_n, ScoreOrder};
pub use graph::{entity_count, find_node};
pub use random_walk::{
    biased_walk_advance, biased_walk_into_nodes, biased_walk_next, biased_walk_start,
    classify_transitions, iteration_seed, iteration_starts, iteration_walks, unbiased_walk,
    walk_corpus, walk_labels, BiasedStep, BiasedWalk, SeededGenerator, Transition, WalkCorpus,
};
