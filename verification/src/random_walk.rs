//! Seeded random walks over a graph (DeepWalk / node2vec style).
//!
//! Each walk iteration seeds its own xorshift generator, visits the nodes in a
//! shuffled order and starts one walk from each. The uniform walk moves to an
//! outgoing neighbor drawn uniformly at random and stops early only at a node
//! without outgoing edges.

use std::collections::HashSet;
use petgraph::Graph;
use rand::seq::{IndexedRandom, SliceRandom};
use rand::SeedableRng;
use rand_xorshift::XorShiftRng;
use vstd::prelude::*;
use crate::graph::{
    endpoints_below, graph_edges, graph_labels, graph_node_count, graph_out_neighbors, has_edge, node_count,
    node_label, out_neighbors,
};

verus! {

broadcast use {vstd::seq_lib::group_to_multiset_ensures, vstd::std_specs::hash::group_hash_axioms};

#[verifier::external_type_specification]
#[verifier::external_body]
pub struct ExXorShiftRng(rand_xorshift::XorShiftRng);

/// `SeedableRng::seed_from_u64`: a xorshift generator seeded with `seed`,
/// recorded together with that seed. What the generator then draws is not
/// stated: nothing here names the generator's state.
#[verifier::external_body]
fn seeded_rng(seed: u64) -> (g: SeededGenerator)
    ensures
        g.seed() == seed,
{
    SeededGenerator { rng: XorShiftRng::seed_from_u64(seed), seed: Ghost(seed) }
}

/// A xorshift generator together with the seed it was created with.
pub struct SeededGenerator {
    rng: XorShiftRng,
    seed: Ghost<u64>,
}

impl SeededGenerator {
    /// The seed the generator was created with.
    pub closed spec fn seed(&self) -> u64 {
        self.seed@
    }

    /// A generator seeded with `seed`.
    pub fn from_seed(seed: u64) -> (g: Self)
        ensures
            g.seed() == seed,
    {
        seeded_rng(seed)
    }

    /// The generator itself, in its current state.
    pub fn into_generator(self) -> XorShiftRng {
        self.rng
    }
}

/// `SliceRandom::shuffle`: a random permutation of the nodes, in place.
#[verifier::external_body]
fn shuffle(nodes: &mut Vec<usize>, rng: &mut XorShiftRng)
    ensures
        final(nodes)@.to_multiset() == old(nodes)@.to_multiset(),
{
    nodes.shuffle(rng)
}

/// `IndexedRandom::choose`: one of the candidates, drawn uniformly.
#[verifier::external_body]
fn choose_uniform(candidates: &[usize], rng: &mut XorShiftRng) -> (chosen: usize)
    requires
        candidates@.len() > 0,
    ensures
        candidates@.contains(chosen),
{
    *candidates.choose(rng).expect("candidates are not empty")
}

/// A walk from `start`: consecutive nodes are joined by an edge, the walk has
/// at most `max(walk_length, 1)` nodes, and it is shorter than `walk_length`
/// only if its last node has no outgoing edge.
pub open spec fn is_walk(edges: Seq<(usize, usize)>, walk: Seq<usize>, start: usize, walk_length: usize) -> bool {
    &&& walk.len() >= 1
    &&& walk[0] == start
    &&& walk.len() <= if walk_length == 0 { 1 } else { walk_length as int }
    &&& forall|i: int| 0 <= i < walk.len() - 1 ==> has_edge(edges, #[trigger] walk[i] as int, walk[i + 1] as int)
    &&& walk.len() < walk_length ==> forall|x: int| !has_edge(edges, walk.last() as int, x)
}

/// One uniform random walk of at most `walk_length` nodes from `start`.
pub fn unbiased_walk(graph: &Graph<String, String>, start: usize, walk_length: usize, rng: &mut XorShiftRng) -> (walk: Vec<usize>)
    requires
        start < graph_node_count(*graph),
    ensures
        is_walk(graph_edges(*graph), walk@, start, walk_length),
        forall|i: int| 0 <= i < walk@.len() ==> #[trigger] walk@[i] < graph_node_count(*graph),
{
    let ghost edges = graph_edges(*graph);
    let ghost n = graph_node_count(*graph);
    let mut walk: Vec<usize> = Vec::new();
    walk.push(start);
    let mut curr = start;
    let mut step: usize = 1;
    let ghost mut stuck = false;
    while step < walk_length
        invariant
            edges == graph_edges(*graph),
            n == graph_node_count(*graph),
            curr < n,
            walk@.len() == step,
            step >= 1,
            step <= if walk_length == 0 { 1 } else { walk_length as int },
            walk@[0] == start,
            walk@.last() == curr,
            forall|i: int| 0 <= i < walk@.len() ==> #[trigger] walk@[i] < n,
            forall|i: int| 0 <= i < walk@.len() - 1 ==> has_edge(edges, #[trigger] walk@[i] as int, walk@[i + 1] as int),
        decreases walk_length - step,
    {
        let neighbors = out_neighbors(graph, curr);
        if neighbors.len() == 0 {
            proof {
                assert forall|x: int| !has_edge(edges, curr as int, x) by {
                    if has_edge(edges, curr as int, x) {
                        let i = choose|i: int| 0 <= i < edges.len() && edges[i].0 == curr && edges[i].1 == x;
                        assert(neighbors@.contains(edges[i].1));
                    }
                }
            }
            return walk;
        }
        let next = choose_uniform(neighbors.as_slice(), rng);
        proof {
            assert(has_edge(edges, curr as int, next as int));
            let k = choose|k: int| 0 <= k < neighbors@.len() && neighbors@[k] == next;
            assert(next < n);
        }
        let ghost before = walk@;
        walk.push(next);
        proof {
            assert forall|i: int| 0 <= i < walk@.len() - 1 implies has_edge(edges, #[trigger] walk@[i] as int, walk@[i + 1] as int) by {
                if i < before.len() - 1 {
                    assert(walk@[i] == before[i] && walk@[i + 1] == before[i + 1]);
                } else {
                    assert(walk@[i] == curr);
                }
            }
        }
        curr = next;
        step = step + 1;
    }
    walk
}

/// The start node of each walk.
pub open spec fn walk_starts(walks: Seq<Vec<usize>>) -> Seq<usize> {
    Seq::new(walks.len(), |i: int| walks[i]@[0])
}

/// The node indices `0, 1, ..., n - 1`.
pub open spec fn node_range(n: nat) -> Seq<usize> {
    Seq::new(n, |i: int| i as usize)
}

/// The generator seed of walk iteration `iteration`: `seed + iteration`.
pub fn iteration_seed(seed: u64, iteration: usize) -> (s: u64)
    requires
        seed + iteration <= u64::MAX,
    ensures
        s == seed + iteration,
{
    seed + iteration as u64
}

/// The start nodes of walk iteration `iteration`, with the generator that
/// drew their order: every node exactly once, shuffled by a generator created
/// with the seed [`iteration_seed`] gives. The same generator then draws the
/// walks.
pub fn iteration_starts(graph: &Graph<String, String>, seed: u64, iteration: usize) -> (res: (Vec<usize>, SeededGenerator))
    requires
        seed + iteration <= u64::MAX,
    ensures
        res.0@.len() == graph_node_count(*graph),
        res.0@.to_multiset() == node_range(graph_node_count(*graph)).to_multiset(),
        forall|k: int| 0 <= k < res.0@.len() ==> #[trigger] res.0@[k] < graph_node_count(*graph),
        res.1.seed() == seed + iteration,
{
    let n = node_count(graph);
    let mut nodes: Vec<usize> = Vec::new();
    let mut v: usize = 0;
    while v < n
        invariant
            v <= n,
            nodes@ == node_range(v as nat),
        decreases n - v,
    {
        nodes.push(v);
        proof {
            assert(nodes@ =~= node_range(v as nat + 1));
        }
        v = v + 1;
    }
    let mut generator = SeededGenerator::from_seed(iteration_seed(seed, iteration));
    let ghost ordered = nodes@;
    shuffle(&mut nodes, &mut generator.rng);
    proof {
        assert(nodes@.len() == nodes@.to_multiset().len());
        assert(ordered.len() == ordered.to_multiset().len());
        assert forall|i: int| 0 <= i < nodes@.len() implies #[trigger] nodes@[i] < n by {
            assert(nodes@.contains(nodes@[i]));
            assert(nodes@.to_multiset().count(nodes@[i]) > 0);
            assert(ordered.contains(nodes@[i]));
        }
    }
    (nodes, generator)
}

/// The walks of one iteration: one walk from every node (each node starts
/// exactly one walk, in the order of [`iteration_starts`]), each a uniform
/// walk as in [`unbiased_walk`].
pub fn iteration_walks(graph: &Graph<String, String>, walk_length: usize, seed: u64, iteration: usize) -> (walks: Vec<Vec<usize>>)
    requires
        seed + iteration <= u64::MAX,
    ensures
        walks@.len() == graph_node_count(*graph),
        walk_starts(walks@).to_multiset() == node_range(graph_node_count(*graph)).to_multiset(),
        forall|i: int| 0 <= i < walks@.len() ==> is_walk(graph_edges(*graph), #[trigger] walks@[i]@, walks@[i]@[0], walk_length),
        forall|i: int, j: int| 0 <= i < walks@.len() && 0 <= j < walks@[i]@.len() ==> #[trigger] walks@[i]@[j] < graph_node_count(*graph),
{
    let n = node_count(graph);
    let (nodes, generator) = iteration_starts(graph, seed, iteration);
    let mut rng = generator.into_generator();
    let mut walks: Vec<Vec<usize>> = Vec::new();
    let mut i: usize = 0;
    while i < nodes.len()
        invariant
            n == graph_node_count(*graph),
            i <= nodes@.len(),
            nodes@.len() == n,
            nodes@.to_multiset() == node_range(n as nat).to_multiset(),
            forall|k: int| 0 <= k < nodes@.len() ==> #[trigger] nodes@[k] < n,
            walks@.len() == i,
            forall|k: int| 0 <= k < i ==> (#[trigger] walks@[k])@[0] == nodes@[k],
            forall|k: int| 0 <= k < i ==> is_walk(graph_edges(*graph), #[trigger] walks@[k]@, walks@[k]@[0], walk_length),
            forall|k: int, j: int| 0 <= k < i && 0 <= j < walks@[k]@.len() ==> #[trigger] walks@[k]@[j] < n,
        decreases nodes@.len() - i,
    {
        let walk = unbiased_walk(graph, nodes[i], walk_length, &mut rng);
        walks.push(walk);
        i = i + 1;
    }
    proof {
        assert(walk_starts(walks@) =~= nodes@);
    }
    walks
}

/// The labels (entity identifiers) of the nodes of a walk.
pub fn walk_labels(graph: &Graph<String, String>, walk: &[usize]) -> (labels: Vec<String>)
    requires
        forall|i: int| 0 <= i < walk@.len() ==> #[trigger] walk@[i] < graph_node_count(*graph),
    ensures
        is_labeled_walk(*graph, walk@, labels@),
{
    let mut labels: Vec<String> = Vec::new();
    let mut i: usize = 0;
    while i < walk.len()
        invariant
            i <= walk@.len(),
            forall|k: int| 0 <= k < walk@.len() ==> #[trigger] walk@[k] < graph_node_count(*graph),
            labels@.len() == i,
            forall|k: int| 0 <= k < i ==> #[trigger] labels@[k]@ == graph_labels(*graph)[walk@[k] as int],
        decreases walk@.len() - i,
    {
        let label = node_label(graph, walk[i]);
        labels.push(label);
        i = i + 1;
    }
    labels
}

/// How a candidate next node relates to the previous node of a walk.
#[derive(Debug, Clone, Copy, PartialEq, Eq, Structural)]
pub enum Transition {
    /// The candidate is the previous node (weight `1 / p`).
    Return,
    /// The candidate is a neighbor of the previous node (weight `1`).
    Triangle,
    /// The candidate is two steps from the previous node (weight `1 / q`).
    Outward,
}

/// The node2vec transition class of moving to `candidate` after `prev`.
pub open spec fn transition_of(prev: usize, prev_neighbors: Set<usize>, candidate: usize) -> Transition {
    if candidate == prev {
        Transition::Return
    } else if prev_neighbors.contains(candidate) {
        Transition::Triangle
    } else {
        Transition::Outward
    }
}

/// The node2vec transition class of every candidate, given the previous node
/// and its neighbors.
pub fn classify_transitions(prev: usize, prev_neighbors: &HashSet<usize>, candidates: &[usize]) -> (classes: Vec<Transition>)
    ensures
        classes@.len() == candidates@.len(),
        forall|i: int| 0 <= i < candidates@.len() ==> #[trigger] classes@[i] == transition_of(prev, prev_neighbors@, candidates@[i]),
{
    let mut classes: Vec<Transition> = Vec::new();
    let mut i: usize = 0;
    while i < candidates.len()
        invariant
            i <= candidates@.len(),
            classes@.len() == i,
            forall|k: int| 0 <= k < i ==> #[trigger] classes@[k] == transition_of(prev, prev_neighbors@, candidates@[k]),
        decreases candidates@.len() - i,
    {
        let candidate = candidates[i];
        let class = if candidate == prev {
            Transition::Return
        } else if prev_neighbors.contains(&candidate) {
            Transition::Triangle
        } else {
            Transition::Outward
        };
        classes.push(class);
        i = i + 1;
    }
    classes
}

/// A biased (second-order, node2vec) walk in progress.
///
/// The walk is driven one step at a time: [`biased_walk_next`] says whether
/// the walk is done and otherwise what the next node is drawn from (uniformly
/// on the first step, by transition class afterwards); the caller draws the
/// node and hands it to [`biased_walk_advance`].
pub struct BiasedWalk {
    walk: Vec<usize>,
    prev: Option<usize>,
    prev_neighbors: HashSet<usize>,
}

impl View for BiasedWalk {
    /// The nodes so far, the node before the last one, and that node's
    /// outgoing neighbors.
    type V = (Seq<usize>, Option<usize>, Set<usize>);

    closed spec fn view(&self) -> (Seq<usize>, Option<usize>, Set<usize>) {
        (self.walk@, self.prev, self.prev_neighbors@)
    }
}

/// What the next node of a biased walk is drawn from.
#[derive(Debug)]
pub enum BiasedStep {
    /// The walk is complete.
    Done,
    /// First step: draw uniformly among these outgoing neighbors.
    Uniform(Vec<usize>),
    /// Later steps: draw among the outgoing neighbors, weighted by class.
    Biased {
        /// The outgoing neighbors of the last node.
        candidates: Vec<usize>,
        /// The transition class of each candidate.
        classes: Vec<Transition>,
    },
}

/// The most nodes a walk of length `walk_length` holds: `max(walk_length, 1)`.
pub open spec fn walk_bound(walk_length: usize) -> int {
    if walk_length == 0 { 1 } else { walk_length as int }
}

/// `state` is a biased walk in progress: its nodes are nodes of the graph,
/// consecutive nodes are joined by an edge, `prev` is the node before the
/// last one (none while the walk holds one node), and the neighbor set holds
/// exactly the outgoing neighbors of `prev`.
pub open spec fn is_biased_state(
    edges: Seq<(usize, usize)>,
    n: nat,
    state: (Seq<usize>, Option<usize>, Set<usize>),
) -> bool {
    let walk = state.0;
    &&& walk.len() >= 1
    &&& forall|i: int| 0 <= i < walk.len() ==> #[trigger] walk[i] < n
    &&& forall|i: int| 0 <= i < walk.len() - 1 ==> has_edge(edges, #[trigger] walk[i] as int, walk[i + 1] as int)
    &&& (state.1 is None <==> walk.len() == 1)
    &&& (state.1 matches Some(p) ==> p == walk[walk.len() - 2] && forall|x: usize| #[trigger] state.2.contains(x) <==> has_edge(edges, p as int, x as int))
}

/// Start a biased walk at `start`.
pub fn biased_walk_start(graph: &Graph<String, String>, start: usize) -> (state: BiasedWalk)
    requires
        start < graph_node_count(*graph),
    ensures
        state@.0 == seq![start],
        state@.1 is None,
        state@.2 == Set::<usize>::empty(),
        is_biased_state(graph_edges(*graph), graph_node_count(*graph), state@),
{
    let mut walk: Vec<usize> = Vec::new();
    walk.push(start);
    let state = BiasedWalk { walk, prev: None, prev_neighbors: HashSet::new() };
    proof {
        assert(state@.0 =~= seq![start]);
    }
    state
}

/// The next step of a biased walk of at most `walk_length` nodes.
pub fn biased_walk_next(graph: &Graph<String, String>, state: &BiasedWalk, walk_length: usize) -> (step: BiasedStep)
    requires
        is_biased_state(graph_edges(*graph), graph_node_count(*graph), state@),
    ensures
        step is Done <==> state@.0.len() >= walk_bound(walk_length)
            || forall|x: int| !has_edge(graph_edges(*graph), state@.0.last() as int, x),
        step is Done && state@.0.len() <= walk_bound(walk_length) ==> is_walk(
            graph_edges(*graph),
            state@.0,
            state@.0[0],
            walk_length,
        ),
        step is Uniform <==> !(step is Done) && state@.1 is None,
        step matches BiasedStep::Uniform(c) ==> c@ == graph_out_neighbors(*graph, state@.0.last()),
        step matches BiasedStep::Uniform(c) ==> c@.len() > 0 && forall|x: usize| #[trigger]
            c@.contains(x) <==> has_edge(graph_edges(*graph), state@.0.last() as int, x as int),
        step matches BiasedStep::Biased { candidates, classes } ==> state@.1 is Some
            && candidates@ == graph_out_neighbors(*graph, state@.0.last())
            && candidates@.len() > 0
            && classes@.len() == candidates@.len(),
        step matches BiasedStep::Biased { candidates, classes } ==> forall|x: usize| #[trigger]
            candidates@.contains(x) <==> has_edge(graph_edges(*graph), state@.0.last() as int, x as int),
        step matches BiasedStep::Biased { candidates, classes } ==> forall|i: int| 0 <= i < candidates@.len()
            ==> #[trigger] classes@[i] == transition_of(state@.1->0, state@.2, candidates@[i]),
{
    let ghost edges = graph_edges(*graph);
    let len = state.walk.len();
    let last = state.walk[len - 1];
    let bound = if walk_length == 0 { 1 } else { walk_length };
    if len >= bound {
        return BiasedStep::Done;
    }
    let neighbors = out_neighbors(graph, last);
    if neighbors.len() == 0 {
        proof {
            assert forall|x: int| !has_edge(edges, last as int, x) by {
                if has_edge(edges, last as int, x) {
                    let i = choose|i: int| 0 <= i < edges.len() && edges[i].0 == last && edges[i].1 == x;
                    assert(neighbors@.contains(edges[i].1));
                }
            }
        }
        return BiasedStep::Done;
    }
    proof {
        assert(neighbors@.contains(neighbors@[0]));
        assert(has_edge(edges, last as int, neighbors@[0] as int));
        assert(state@.0.last() == last);
        assert(!(forall|x: int| !has_edge(edges, state@.0.last() as int, x)));
        assert(state@.0.len() < walk_bound(walk_length));
    }
    match state.prev {
        None => BiasedStep::Uniform(neighbors),
        Some(p) => {
            let classes = classify_transitions(p, &state.prev_neighbors, neighbors.as_slice());
            BiasedStep::Biased { candidates: neighbors, classes }
        },
    }
}

/// Move a biased walk to `next`, an outgoing neighbor of its last node.
pub fn biased_walk_advance(graph: &Graph<String, String>, state: &mut BiasedWalk, next: usize)
    requires
        is_biased_state(graph_edges(*graph), graph_node_count(*graph), old(state)@),
        has_edge(graph_edges(*graph), old(state)@.0.last() as int, next as int),
    ensures
        final(state)@.0 == old(state)@.0.push(next),
        final(state)@.1 == Some(old(state)@.0.last()),
        forall|x: usize| #[trigger] final(state)@.2.contains(x) <==> has_edge(graph_edges(*graph), old(state)@.0.last() as int, x as int),
        is_biased_state(graph_edges(*graph), graph_node_count(*graph), final(state)@),
{
    let ghost edges = graph_edges(*graph);
    let ghost n = graph_node_count(*graph);
    let ghost before = state.walk@;
    let len = state.walk.len();
    let last = state.walk[len - 1];
    let neighbors = out_neighbors(graph, last);
    proof {
        assert(neighbors@.contains(next));
        let k = choose|k: int| 0 <= k < neighbors@.len() && neighbors@[k] == next;
        assert(next < n);
    }
    let mut set: HashSet<usize> = HashSet::new();
    let mut i: usize = 0;
    while i < neighbors.len()
        invariant
            i <= neighbors@.len(),
            forall|x: usize| #[trigger] set@.contains(x) <==> exists|j: int| 0 <= j < i && neighbors@[j] == x,
        decreases neighbors@.len() - i,
    {
        let x = neighbors[i];
        set.insert(x);
        proof {
            assert forall|y: usize| #[trigger] set@.contains(y) <==> exists|j: int| 0 <= j < i + 1 && neighbors@[j] == y by {
                if y == x {
                    assert(neighbors@[i as int] == y);
                }
            }
        }
        i = i + 1;
    }
    proof {
        assert forall|x: usize| #[trigger] set@.contains(x) <==> has_edge(edges, last as int, x as int) by {
            if neighbors@.contains(x) {
                let j = choose|j: int| 0 <= j < neighbors@.len() && neighbors@[j] == x;
                assert(exists|j: int| 0 <= j < i && neighbors@[j] == x);
            }
        }
    }
    state.walk.push(next);
    state.prev = Some(last);
    state.prev_neighbors = set;
    proof {
        let walk = state.walk@;
        assert(walk == before.push(next));
        assert forall|i: int| 0 <= i < walk.len() - 1 implies has_edge(edges, #[trigger] walk[i] as int, walk[i + 1] as int) by {
            if i < before.len() - 1 {
                assert(walk[i] == before[i] && walk[i + 1] == before[i + 1]);
            } else {
                assert(walk[i] == last);
            }
        }
        assert forall|i: int| 0 <= i < walk.len() implies #[trigger] walk[i] < n by {
            if i < before.len() {
                assert(walk[i] == before[i]);
            }
        }
    }
}

/// The nodes of a biased walk.
pub fn biased_walk_into_nodes(state: BiasedWalk) -> (walk: Vec<usize>)
    ensures
        walk@ == state@.0,
{
    state.walk
}

/// A walk corpus over dense node indices `0..N`, as expected by skip-gram
/// pipelines that store embeddings as a matrix indexed by node.
#[derive(Debug, Clone)]
pub struct WalkCorpus {
    /// Dense node index -> graph node identifier.
    pub node_ids: Vec<String>,
    /// Random walks as dense node indices.
    pub walks: Vec<Vec<u32>>,
}

/// `corpus` holds the graph's node identifiers in node-index order and the
/// index walks as `u32` (indices below the node count unchanged).
pub open spec fn is_corpus_of(graph: Graph<String, String>, walks: Seq<Vec<usize>>, corpus: WalkCorpus) -> bool {
    &&& corpus.node_ids@.len() == graph_node_count(graph)
    &&& forall|i: int| 0 <= i < corpus.node_ids@.len() ==> #[trigger] corpus.node_ids@[i]@ == graph_labels(graph)[i]
    &&& corpus.walks@.len() == walks.len()
    &&& forall|i: int| 0 <= i < walks.len() ==> (#[trigger] corpus.walks@[i])@.len() == walks[i]@.len()
    &&& forall|i: int, j: int| 0 <= i < walks.len() && 0 <= j < walks[i]@.len() ==>
            #[trigger] corpus.walks@[i]@[j] == walks[i]@[j] as u32
    &&& forall|i: int, j: int| 0 <= i < walks.len() && 0 <= j < walks[i]@.len() && walks[i]@[j]
            < graph_node_count(graph) ==> #[trigger] corpus.walks@[i]@[j] == walks[i]@[j]
            && corpus.walks@[i]@[j] < corpus.node_ids@.len()
}

/// `labels` are the identifiers of the nodes of `walk`.
pub open spec fn is_labeled_walk(graph: Graph<String, String>, walk: Seq<usize>, labels: Seq<String>) -> bool {
    &&& labels.len() == walk.len()
    &&& forall|i: int| 0 <= i < walk.len() ==> #[trigger] labels[i]@ == graph_labels(graph)[walk[i] as int]
}

/// The corpus and the identifier walks agree: for a walk within the graph,
/// every dense index of the corpus names the identifier at the same position
/// of the labeled walk.
pub proof fn lemma_corpus_agrees_with_labels(
    graph: Graph<String, String>,
    walks: Seq<Vec<usize>>,
    corpus: WalkCorpus,
    i: int,
    labels: Seq<String>,
)
    requires
        is_corpus_of(graph, walks, corpus),
        0 <= i < walks.len(),
        is_labeled_walk(graph, walks[i]@, labels),
        forall|j: int| 0 <= j < walks[i]@.len() ==> #[trigger] walks[i]@[j] < graph_node_count(graph),
    ensures
        corpus.walks@[i]@.len() == labels.len(),
        forall|m: int| 0 <= m < labels.len() ==> corpus.walks@[i]@[m] < corpus.node_ids@.len()
            && #[trigger] corpus.node_ids@[corpus.walks@[i]@[m] as int]@ == labels[m]@,
{
    assert forall|m: int| 0 <= m < labels.len() implies corpus.walks@[i]@[m] < corpus.node_ids@.len()
        && #[trigger] corpus.node_ids@[corpus.walks@[i]@[m] as int]@ == labels[m]@ by {
        assert(walks[i]@[m] < graph_node_count(graph));
        assert(corpus.walks@[i]@[m] == walks[i]@[m]);
    }
}

/// For walks within the graph, every corpus index lies below the number of
/// identifiers; and when the graph's labels are distinct, so are the
/// corpus's identifiers.
pub proof fn lemma_corpus_invariants(graph: Graph<String, String>, walks: Seq<Vec<usize>>, corpus: WalkCorpus)
    requires
        is_corpus_of(graph, walks, corpus),
        forall|i: int, j: int| 0 <= i < walks.len() && 0 <= j < walks[i]@.len() ==> #[trigger] walks[i]@[j] < graph_node_count(graph),
    ensures
        corpus.node_ids@.len() == graph_node_count(graph),
        forall|i: int, j: int| 0 <= i < corpus.walks@.len() && 0 <= j < corpus.walks@[i]@.len()
            ==> #[trigger] corpus.walks@[i]@[j] < corpus.node_ids@.len(),
        (forall|a: int, b: int| 0 <= a < b < graph_node_count(graph) ==> graph_labels(graph)[a] != graph_labels(graph)[b])
            ==> forall|a: int, b: int| 0 <= a < b < corpus.node_ids@.len() ==> corpus.node_ids@[a]@ != corpus.node_ids@[b]@,
{
    assert forall|i: int, j: int| 0 <= i < corpus.walks@.len() && 0 <= j < corpus.walks@[i]@.len()
        implies #[trigger] corpus.walks@[i]@[j] < corpus.node_ids@.len() by {
        assert(walks[i]@[j] < graph_node_count(graph));
    }
    if forall|a: int, b: int| 0 <= a < b < graph_node_count(graph) ==> graph_labels(graph)[a] != graph_labels(graph)[b] {
        assert forall|a: int, b: int| 0 <= a < b < corpus.node_ids@.len() implies corpus.node_ids@[a]@ != corpus.node_ids@[b]@ by {
            assert(corpus.node_ids@[a]@ == graph_labels(graph)[a]);
            assert(corpus.node_ids@[b]@ == graph_labels(graph)[b]);
        }
    }
}

/// Pair index walks with the graph's node identifiers, in node-index order;
/// node indices are stored as `u32`.
pub fn walk_corpus(graph: &Graph<String, String>, walks: &Vec<Vec<usize>>) -> (corpus: WalkCorpus)
    ensures
        is_corpus_of(*graph, walks@, corpus),
{
    let n = node_count(graph);
    let mut node_ids: Vec<String> = Vec::new();
    let mut v: usize = 0;
    while v < n
        invariant
            v <= n,
            n == graph_node_count(*graph),
            node_ids@.len() == v,
            forall|i: int| 0 <= i < v ==> #[trigger] node_ids@[i]@ == graph_labels(*graph)[i],
        decreases n - v,
    {
        node_ids.push(node_label(graph, v));
        v = v + 1;
    }
    let mut dense: Vec<Vec<u32>> = Vec::new();
    let mut i: usize = 0;
    while i < walks.len()
        invariant
            i <= walks@.len(),
            n == graph_node_count(*graph),
            node_ids@.len() == n,
            n <= u32::MAX,
            dense@.len() == i,
            forall|k: int| 0 <= k < i ==> (#[trigger] dense@[k])@.len() == walks@[k]@.len(),
            forall|k: int, j: int| 0 <= k < i && 0 <= j < walks@[k]@.len() ==> #[trigger] dense@[k]@[j] == walks@[k]@[j] as u32,
        decreases walks@.len() - i,
    {
        let walk = &walks[i];
        let mut dense_walk: Vec<u32> = Vec::new();
        let mut j: usize = 0;
        while j < walk.len()
            invariant
                j <= walk@.len(),
                dense_walk@.len() == j,
                forall|m: int| 0 <= m < j ==> #[trigger] dense_walk@[m] == walk@[m] as u32,
            decreases walk@.len() - j,
        {
            dense_walk.push(walk[j] as u32);
            j = j + 1;
        }
        dense.push(dense_walk);
        i = i + 1;
    }
    WalkCorpus { node_ids, walks: dense }
}

} // verus!
