use std::collections::HashMap;

use lattix::adjacency::DedupAdjacency;
use lattix::closeness::{bfs_distances, classic_closeness, ClassicCloseness, ClosenessConfig};
use lattix::metrics::Ratio;
use petgraph::graph::NodeIndex;
use petgraph::Graph;

/// A graph of `(subject, relation, object)` triples; each entity becomes one
/// node, in order of first mention.
fn graph(triples: &[(&str, &str, &str)]) -> Graph<String, String> {
    let mut g: Graph<String, String> = Graph::new();
    let mut ids: HashMap<String, NodeIndex> = HashMap::new();
    for &(s, r, o) in triples {
        let a = *ids.entry(s.to_string()).or_insert_with(|| g.add_node(s.to_string()));
        let b = *ids.entry(o.to_string()).or_insert_with(|| g.add_node(o.to_string()));
        g.add_edge(a, b, r.to_string());
    }
    g
}

fn index_of(g: &Graph<String, String>, id: &str) -> usize {
    g.node_indices().find(|&n| g[n] == id).unwrap().index()
}

fn adjacency(g: &Graph<String, String>, undirected: bool) -> DedupAdjacency {
    if undirected {
        DedupAdjacency::undirected(g)
    } else {
        DedupAdjacency::directed(g, lattix::adjacency::EdgeDirection::Outgoing)
    }
}

fn value(r: Ratio) -> f64 {
    r.numerator as f64 / r.denominator as f64
}

fn classic_value(c: ClassicCloseness) -> f64 {
    value(c.inverse_mean_distance) * value(c.scale)
}

/// Closeness scores of every node: harmonic from the distances, classic from
/// the exact classic closeness.
fn closeness(g: &Graph<String, String>, config: ClosenessConfig) -> HashMap<String, f64> {
    let n = g.node_count();
    let adj = adjacency(g, config.undirected);
    let mut scores = HashMap::new();
    for source in 0..n {
        let score = if n < 2 {
            0.0
        } else if config.harmonic {
            let sum: f64 = bfs_distances(&adj, source)
                .iter()
                .filter_map(|d| *d)
                .filter(|&d| d > 0)
                .map(|d| 1.0 / d as f64)
                .sum();
            if config.normalized { sum / (n - 1) as f64 } else { sum }
        } else {
            classic_value(classic_closeness(&adj, source, config.normalized))
        };
        scores.insert(g[NodeIndex::new(source)].clone(), score);
    }
    scores
}

fn assert_score(scores: &HashMap<String, f64>, node: &str, expected: f64) {
    let actual = scores[node];
    assert!(
        (actual - expected).abs() < 1e-12,
        "{node}: expected {expected}, got {actual}"
    );
}

fn classic_undirected(g: &Graph<String, String>) -> HashMap<String, f64> {
    closeness(g, ClosenessConfig { normalized: true, undirected: true, harmonic: false })
}

#[test]
fn test_closeness_star_directed() {
    let g = graph(&[("Hub", "rel", "A"), ("Hub", "rel", "B"), ("Hub", "rel", "C")]);
    let scores = closeness(&g, ClosenessConfig::default());
    let hub = scores["Hub"];
    let a = scores["A"];
    assert!(hub > 0.0, "Hub should have positive closeness: {hub}");
    assert_eq!(a, 0.0, "A can't reach anyone: {a}");
}

#[test]
fn test_closeness_line() {
    let g = graph(&[("A", "rel", "B"), ("B", "rel", "C")]);
    let config = ClosenessConfig { normalized: false, undirected: true, harmonic: true };
    let scores = closeness(&g, config);
    let (a, b, c) = (scores["A"], scores["B"], scores["C"]);
    assert!(b > a, "B should be more central than A: B={b}, A={a}");
    assert!((a - c).abs() < 1e-6, "A and C should be symmetric: A={a}, C={c}");
}

#[test]
fn test_closeness_disconnected() {
    let g = graph(&[("A", "rel", "B"), ("C", "rel", "D")]);
    let scores = closeness(&g, ClosenessConfig::default());
    let a = scores["A"];
    assert!(a > 0.0, "A should have some closeness: {a}");
}

#[test]
fn test_closeness_normalized() {
    let g = graph(&[
        ("A", "rel", "B"),
        ("B", "rel", "A"),
        ("B", "rel", "C"),
        ("C", "rel", "B"),
        ("A", "rel", "C"),
        ("C", "rel", "A"),
    ]);
    let config = ClosenessConfig { normalized: true, undirected: false, harmonic: true };
    for (name, score) in closeness(&g, config) {
        assert!(
            (score - 1.0).abs() < 1e-6,
            "Complete graph should have max closeness: {name}={score}"
        );
    }
}

#[test]
fn classic_path_star_cycle_and_complete_match_oracles() {
    let path = graph(&[("A", "rel", "B"), ("B", "rel", "C"), ("C", "rel", "D")]);
    let path_scores = classic_undirected(&path);
    for (node, expected) in [("A", 0.5), ("B", 0.75), ("C", 0.75), ("D", 0.5)] {
        assert_score(&path_scores, node, expected);
    }

    let star = graph(&[("Hub", "rel", "A"), ("Hub", "rel", "B"), ("Hub", "rel", "C")]);
    let star_scores = classic_undirected(&star);
    assert_score(&star_scores, "Hub", 1.0);
    for leaf in ["A", "B", "C"] {
        assert_score(&star_scores, leaf, 3.0 / 5.0);
    }

    let cycle = graph(&[("A", "rel", "B"), ("B", "rel", "C"), ("C", "rel", "D"), ("D", "rel", "A")]);
    let cycle_scores = classic_undirected(&cycle);
    for node in ["A", "B", "C", "D"] {
        assert_score(&cycle_scores, node, 3.0 / 4.0);
    }

    let complete = graph(&[
        ("A", "rel", "B"),
        ("A", "rel", "C"),
        ("A", "rel", "D"),
        ("B", "rel", "C"),
        ("B", "rel", "D"),
        ("C", "rel", "D"),
    ]);
    let complete_scores = classic_undirected(&complete);
    for node in ["A", "B", "C", "D"] {
        assert_score(&complete_scores, node, 1.0);
    }
}

#[test]
fn classic_disconnected_scores_use_wasserman_faust_scaling() {
    let g = graph(&[("A", "rel", "B"), ("B", "rel", "C"), ("D", "rel", "E")]);
    let scores = classic_undirected(&g);
    for (node, expected) in [("A", 1.0 / 3.0), ("B", 0.5), ("C", 1.0 / 3.0), ("D", 0.25), ("E", 0.25)] {
        assert_score(&scores, node, expected);
    }
}

#[test]
fn directed_closeness_explicitly_uses_outward_distances() {
    let g = graph(&[("A", "rel", "B"), ("B", "rel", "C")]);
    let scores = closeness(&g, ClosenessConfig { normalized: true, undirected: false, harmonic: false });
    assert_score(&scores, "A", 2.0 / 3.0);
    assert_score(&scores, "B", 0.5);
    assert_score(&scores, "C", 0.0);
}

#[test]
fn bfs_distances_are_shortest_path_lengths() {
    // A -> B -> C -> D and a shortcut A -> C; E unreachable; D -> A closes a cycle.
    let g = graph(&[
        ("A", "rel", "B"),
        ("B", "rel", "C"),
        ("C", "rel", "D"),
        ("A", "rel", "C"),
        ("D", "rel", "A"),
        ("E", "rel", "E"),
    ]);
    let adj = adjacency(&g, false);
    let dist = bfs_distances(&adj, index_of(&g, "A"));
    assert_eq!(dist[index_of(&g, "A")], Some(0));
    assert_eq!(dist[index_of(&g, "B")], Some(1));
    assert_eq!(dist[index_of(&g, "C")], Some(1));
    assert_eq!(dist[index_of(&g, "D")], Some(2));
    assert_eq!(dist[index_of(&g, "E")], None);
    let from_d = bfs_distances(&adj, index_of(&g, "D"));
    assert_eq!(from_d[index_of(&g, "C")], Some(2));
}

#[test]
fn classic_closeness_is_exact_and_at_most_one() {
    let g = graph(&[("A", "rel", "B"), ("B", "rel", "C")]);
    let adj = adjacency(&g, false);
    let a = classic_closeness(&adj, index_of(&g, "A"), true);
    assert_eq!(a.inverse_mean_distance, Ratio { numerator: 2, denominator: 3 });
    assert_eq!(a.scale, Ratio { numerator: 2, denominator: 2 });
    let c = classic_closeness(&adj, index_of(&g, "C"), true);
    assert_eq!(c.inverse_mean_distance, Ratio { numerator: 0, denominator: 1 });
    assert_eq!(c.scale, Ratio { numerator: 1, denominator: 1 });
    let b = classic_closeness(&adj, index_of(&g, "B"), false);
    assert_eq!(b.scale, Ratio { numerator: 1, denominator: 1 });
    for source in 0..3 {
        assert!(classic_value(classic_closeness(&adj, source, true)) <= 1.0);
    }
}

#[test]
fn closeness_config_default_is_normalized_directed_harmonic() {
    let config = ClosenessConfig::default();
    assert!(config.normalized);
    assert!(!config.undirected);
    assert!(config.harmonic);
}
