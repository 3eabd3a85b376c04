use std::collections::{HashMap, HashSet};

use lattix::random_walk::{
    classify_transitions, iteration_walks, unbiased_walk, walk_corpus, walk_labels, Transition,
};
use petgraph::graph::NodeIndex;
use petgraph::Graph;
use rand::SeedableRng;
use rand_xorshift::XorShiftRng;

fn graph(triples: &[(&str, &str, &str)]) -> Graph<String, String> {
    let mut g: Graph<String, String> = Graph::new();
    let mut ids: HashMap<String, NodeIndex> = HashMap::new();
    for &(s, r, o) in triples {
        let a = *ids.entry(s.to_string()).or_insert_with(|| g.add_node(s.to_string()));
        let b = *ids.entry(o.to_string()).or_insert_with(|| g.add_node(o.to_string()));
        g.add_edge(a, b, r.to_string());
    }
    g
}

/// Uniform walks of every iteration, as entity identifiers.
fn uniform_walks(g: &Graph<String, String>, walk_length: usize, num_walks: usize, seed: u64) -> Vec<Vec<String>> {
    let mut walks = Vec::new();
    for iteration in 0..num_walks {
        for walk in iteration_walks(g, walk_length, seed, iteration) {
            walks.push(walk_labels(g, &walk));
        }
    }
    walks
}

#[test]
fn test_random_walk_uniform() {
    let g = graph(&[("A", "rel", "B"), ("B", "rel", "A"), ("B", "rel", "C"), ("C", "rel", "B")]);
    let walks = uniform_walks(&g, 10, 2, 42);
    assert_eq!(walks.len(), 3 * 2); // 3 nodes * 2 walks
    for walk in &walks {
        assert!(!walk.is_empty());
    }
}

#[test]
fn test_random_walk_reproducible() {
    let g = graph(&[("A", "rel", "B"), ("B", "rel", "C")]);
    let walks1 = uniform_walks(&g, 10, 3, 999);
    let walks2 = uniform_walks(&g, 10, 3, 999);
    assert_eq!(walks1, walks2);
}

#[test]
fn walks_follow_edges_and_stop_only_at_dead_ends() {
    let g = graph(&[("A", "rel", "B"), ("B", "rel", "C"), ("B", "rel", "A"), ("C", "rel", "D")]);
    let edges: HashSet<(usize, usize)> = g
        .raw_edges()
        .iter()
        .map(|e| (e.source().index(), e.target().index()))
        .collect();
    for iteration in 0..5 {
        let walks = iteration_walks(&g, 6, 7, iteration);
        assert_eq!(walks.len(), 4);
        let mut starts: Vec<usize> = walks.iter().map(|w| w[0]).collect();
        starts.sort();
        assert_eq!(starts, vec![0, 1, 2, 3]);
        for walk in &walks {
            assert!(!walk.is_empty() && walk.len() <= 6);
            for pair in walk.windows(2) {
                assert!(edges.contains(&(pair[0], pair[1])));
            }
            if walk.len() < 6 {
                let last = *walk.last().unwrap();
                assert!(!edges.iter().any(|&(s, _)| s == last));
            }
        }
    }
}

#[test]
fn zero_length_walk_holds_only_its_start() {
    let g = graph(&[("A", "rel", "B")]);
    let mut rng = XorShiftRng::seed_from_u64(1);
    assert_eq!(unbiased_walk(&g, 0, 0, &mut rng), vec![0]);
    assert_eq!(unbiased_walk(&g, 1, 5, &mut rng), vec![1]);
    assert_eq!(unbiased_walk(&g, 0, 2, &mut rng), vec![0, 1]);
}

#[test]
fn transitions_are_classified_relative_to_the_previous_node() {
    let previous_neighbors = HashSet::from([1usize]);
    let classes = classify_transitions(0, &previous_neighbors, &[0, 1, 2]);
    assert_eq!(classes, vec![Transition::Return, Transition::Triangle, Transition::Outward]);
}

#[test]
fn corpus_pairs_walks_with_node_identifiers() {
    let g = graph(&[("A", "rel", "B"), ("B", "rel", "C")]);
    let corpus = walk_corpus(&g, &vec![vec![0, 1, 2], vec![2]]);
    assert_eq!(corpus.node_ids, vec!["A", "B", "C"]);
    assert_eq!(corpus.walks, vec![vec![0u32, 1, 2], vec![2]]);
}

#[test]
fn start_order_is_shuffled() {
    let g = graph(&[("A", "r", "B"), ("C", "r", "D"), ("E", "r", "F")]);
    let identity: Vec<usize> = (0..6).collect();
    let mut shuffled = false;
    for iteration in 0..8 {
        let starts: Vec<usize> = iteration_walks(&g, 3, 5, iteration).iter().map(|w| w[0]).collect();
        if starts != identity {
            shuffled = true;
        }
    }
    assert!(shuffled);
}

use lattix::graph::entity_count;
use lattix::random_walk::{
    biased_walk_advance, biased_walk_into_nodes, biased_walk_next, biased_walk_start,
    iteration_seed, iteration_starts, BiasedStep, SeededGenerator,
};
use rand::Rng;
use rand::seq::IndexedRandom;

/// Biased walks of every iteration, drawing each biased step from the
/// node2vec weights `1/p`, `1`, `1/q`.
fn biased_walks(g: &Graph<String, String>, walk_length: usize, num_walks: usize, seed: u64, p: f64, q: f64) -> Vec<Vec<usize>> {
    let mut walks = Vec::new();
    for iteration in 0..num_walks {
        let (starts, generator) = iteration_starts(g, seed, iteration);
        let mut rng = generator.into_generator();
        for start in starts {
            let mut state = biased_walk_start(g, start);
            loop {
                let next = match biased_walk_next(g, &state, walk_length) {
                    BiasedStep::Done => break,
                    BiasedStep::Uniform(candidates) => *candidates.choose(&mut rng).unwrap(),
                    BiasedStep::Biased { candidates, classes } => {
                        let weights: Vec<f64> = classes
                            .iter()
                            .map(|c| match c {
                                Transition::Return => 1.0 / p,
                                Transition::Triangle => 1.0,
                                Transition::Outward => 1.0 / q,
                            })
                            .collect();
                        let total: f64 = weights.iter().sum();
                        let mut draw = rng.random::<f64>() * total;
                        let mut chosen = *candidates.last().unwrap();
                        for (&c, &w) in candidates.iter().zip(&weights) {
                            if draw < w {
                                chosen = c;
                                break;
                            }
                            draw -= w;
                        }
                        chosen
                    }
                };
                biased_walk_advance(g, &mut state, next);
            }
            walks.push(biased_walk_into_nodes(state));
        }
    }
    walks
}

#[test]
fn biased_walks_follow_edges_and_start_once_per_node() {
    // A <-> B <-> C <-> D
    let g = graph(&[
        ("A", "rel", "B"),
        ("B", "rel", "A"),
        ("B", "rel", "C"),
        ("C", "rel", "B"),
        ("C", "rel", "D"),
        ("D", "rel", "C"),
    ]);
    let walks = biased_walks(&g, 20, 5, 123, 0.5, 2.0);
    assert_eq!(walks.len(), 4 * 5);
    let edges: HashSet<(usize, usize)> =
        g.raw_edges().iter().map(|e| (e.source().index(), e.target().index())).collect();
    for chunk in walks.chunks(4) {
        let mut starts: Vec<usize> = chunk.iter().map(|w| w[0]).collect();
        starts.sort();
        assert_eq!(starts, vec![0, 1, 2, 3]);
    }
    for walk in &walks {
        assert_eq!(walk.len(), 20);
        for pair in walk.windows(2) {
            assert!(edges.contains(&(pair[0], pair[1])));
        }
    }
}

#[test]
fn biased_walk_steps_report_classes_and_stop_at_dead_ends() {
    // A -> B, B -> A, B -> C, A -> C; C has no outgoing edge.
    let g = graph(&[("A", "r", "B"), ("B", "r", "A"), ("B", "r", "C"), ("A", "r", "C")]);
    let mut state = biased_walk_start(&g, 0);
    match biased_walk_next(&g, &state, 5) {
        BiasedStep::Uniform(mut c) => {
            c.sort();
            assert_eq!(c, vec![1, 2]);
        }
        other => panic!("expected a uniform first step, got {other:?}"),
    }
    biased_walk_advance(&g, &mut state, 1);
    match biased_walk_next(&g, &state, 5) {
        BiasedStep::Biased { candidates, classes } => {
            for (c, class) in candidates.iter().zip(&classes) {
                let expected = if *c == 0 { Transition::Return } else { Transition::Triangle };
                assert_eq!(*class, expected);
            }
            assert_eq!(candidates.len(), 2);
        }
        other => panic!("expected a biased step, got {other:?}"),
    }
    biased_walk_advance(&g, &mut state, 2);
    assert!(matches!(biased_walk_next(&g, &state, 5), BiasedStep::Done));
    assert_eq!(biased_walk_into_nodes(state), vec![0, 1, 2]);

    let short = biased_walk_start(&g, 0);
    assert!(matches!(biased_walk_next(&g, &short, 1), BiasedStep::Done));
    assert!(matches!(biased_walk_next(&g, &short, 0), BiasedStep::Done));
}

#[test]
fn iterations_are_seeded_with_seed_plus_iteration() {
    assert_eq!(iteration_seed(42, 0), 42);
    assert_eq!(iteration_seed(42, 3), 45);
    let mut from_starts = iteration_starts(&graph(&[("A", "r", "A")]), 7, 2).1.into_generator();
    let mut direct = SeededGenerator::from_seed(9).into_generator();
    assert_eq!(from_starts.random::<u64>(), direct.random::<u64>());
    let g = graph(&[("A", "r", "B"), ("C", "r", "D"), ("E", "r", "F")]);
    let (a, _) = iteration_starts(&g, 40, 2);
    let (b, _) = iteration_starts(&g, 41, 1);
    assert_eq!(a, b);
    let mut sorted = a.clone();
    sorted.sort();
    assert_eq!(sorted, (0..6).collect::<Vec<usize>>());
    assert_eq!(entity_count(&g), 6);
}

#[test]
fn corpus_indices_name_the_labeled_walk() {
    let g = graph(&[("A", "rel", "B"), ("B", "rel", "C"), ("C", "rel", "A")]);
    let walks = iteration_walks(&g, 5, 9, 0);
    let corpus = walk_corpus(&g, &walks);
    for (walk, dense) in walks.iter().zip(&corpus.walks) {
        let labels = walk_labels(&g, walk);
        let named: Vec<String> = dense.iter().map(|&x| corpus.node_ids[x as usize].clone()).collect();
        assert_eq!(named, labels);
    }
}
