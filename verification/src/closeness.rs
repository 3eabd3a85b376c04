//! Breadth-first distances and the integer core of closeness centrality.
//!
//! Classic closeness of a node `v` with `r` reachable peers at total distance
//! `Σ d(v, u)` is `r / Σ d(v, u)`; with normalization it is scaled by the
//! reachable fraction `r / (n - 1)` (Wasserman-Faust). Harmonic closeness,
//! `Σ 1 / d(v, u)`, is computed from the distances returned here.

use vstd::prelude::*;
use crate::adjacency::{rows_in_range, DedupAdjacency};
use crate::metrics::{is_ratio, lemma_mul_bound, lemma_usize_square_fits, Ratio};

verus! {

/// Configuration for closeness centrality.
#[derive(Debug, Clone, Copy, PartialEq, Eq, Structural)]
pub struct ClosenessConfig {
    /// Normalize harmonic scores by `n - 1`, or apply the
    /// Wasserman-Faust reachable-fraction correction in classic mode.
    pub normalized: bool,
    /// Treat graph as undirected. Directed mode follows outgoing edges.
    pub undirected: bool,
    /// Use harmonic mean (recommended for disconnected graphs).
    pub harmonic: bool,
}

impl Default for ClosenessConfig {
    fn default() -> (config: Self)
        ensures
            config.normalized,
            !config.undirected,
            config.harmonic,
    {
        ClosenessConfig { normalized: true, undirected: false, harmonic: true }
    }
}

/// Row `u` lists `w`.
pub open spec fn adjacent(rows: Seq<Seq<usize>>, u: int, w: int) -> bool {
    0 <= u < rows.len() && exists|j: int| 0 <= j < rows[u].len() && rows[u][j] == w
}

/// `v` can be reached from `source` in at most `k` steps.
pub open spec fn reach_within(rows: Seq<Seq<usize>>, source: int, v: int, k: nat) -> bool
    decreases k,
{
    v == source || (k > 0 && exists|u: int|
        #![trigger adjacent(rows, u, v)]
        0 <= u < rows.len() && reach_within(rows, source, u, (k - 1) as nat) && adjacent(rows, u, v))
}

/// `d` is the length of a shortest path from `source` to `v`.
pub open spec fn is_shortest_distance(rows: Seq<Seq<usize>>, source: int, v: int, d: nat) -> bool {
    reach_within(rows, source, v, d) && forall|k: nat| k < d ==> !#[trigger] reach_within(rows, source, v, k)
}

/// `dist` holds, for every node, the shortest distance from `source`, or
/// `None` where no path leads.
pub open spec fn is_distance_table(rows: Seq<Seq<usize>>, source: int, dist: Seq<Option<usize>>) -> bool {
    &&& dist.len() == rows.len()
    &&& forall|v: int| 0 <= v < dist.len() ==> match #[trigger] dist[v] {
        Some(d) => is_shortest_distance(rows, source, v, d as nat),
        None => forall|k: nat| !#[trigger] reach_within(rows, source, v, k),
    }
}

/// The distance value of a table entry, `-1` where there is none.
pub open spec fn dval(o: Option<usize>) -> int {
    match o {
        Some(d) => d as int,
        None => -1,
    }
}

/// Everything the search has discovered so far, `queue[..head]` expanded.
pub open spec fn bfs_state(
    rows: Seq<Seq<usize>>,
    source: int,
    dist: Seq<Option<usize>>,
    queue: Seq<usize>,
    head: int,
) -> bool {
    let n = rows.len();
    &&& dist.len() == n
    &&& 0 <= source < n
    &&& queue.len() >= 1
    &&& queue[0] == source
    &&& dist[source] == Some(0usize)
    &&& 0 <= head <= queue.len()
    &&& forall|i: int| 0 <= i < queue.len() ==> #[trigger] queue[i] < n
    &&& forall|i: int| 0 <= i < queue.len() ==> (dist[#[trigger] queue[i] as int] is Some && dval(dist[queue[i] as int]) <= i)
    &&& forall|v: int| 0 <= v < n ==> (#[trigger] dist[v] is Some <==> queue.contains(v as usize))
    &&& forall|i: int, j: int| 0 <= i <= j < queue.len() ==> dval(dist[#[trigger] queue[i] as int]) <= dval(dist[#[trigger] queue[j] as int])
    &&& forall|v: int| 0 <= v < n ==> (#[trigger] dist[v] matches Some(d) ==> reach_within(rows, source, v, d as nat))
}

/// The expanded prefix `queue[..head]` has all its neighbors discovered, at
/// most one step further away.
pub open spec fn bfs_expanded(rows: Seq<Seq<usize>>, dist: Seq<Option<usize>>, queue: Seq<usize>, head: int) -> bool {
    forall|i: int, w: int| 0 <= i < head && #[trigger] adjacent(rows, queue[i] as int, w) ==>
        dist[w] is Some && dval(dist[w]) <= dval(dist[#[trigger] queue[i] as int]) + 1
}

/// Number of undiscovered nodes.
pub open spec fn undiscovered(dist: Seq<Option<usize>>) -> nat
    decreases dist.len(),
{
    if dist.len() == 0 {
        0
    } else {
        undiscovered(dist.drop_last()) + if dist.last() is None { 1nat } else { 0nat }
    }
}

proof fn lemma_undiscovered_update(dist: Seq<Option<usize>>, i: int, d: usize)
    requires
        0 <= i < dist.len(),
        dist[i] is None,
    ensures
        undiscovered(dist.update(i, Some(d))) + 1 == undiscovered(dist),
    decreases dist.len(),
{
    let next = dist.update(i, Some(d));
    if i == dist.len() - 1 {
        assert(next.drop_last() =~= dist.drop_last());
    } else {
        assert(next.drop_last() =~= dist.drop_last().update(i, Some(d)));
        lemma_undiscovered_update(dist.drop_last(), i, d);
    }
}

proof fn lemma_undiscovered_all(dist: Seq<Option<usize>>)
    requires
        forall|w: int| 0 <= w < dist.len() ==> #[trigger] dist[w] is None,
    ensures
        undiscovered(dist) == dist.len(),
    decreases dist.len(),
{
    if dist.len() > 0 {
        lemma_undiscovered_all(dist.drop_last());
    }
}

/// Once every discovered node is expanded, every node reachable within `k`
/// steps is discovered at distance at most `k`.
proof fn lemma_bfs_closed(
    rows: Seq<Seq<usize>>,
    source: int,
    dist: Seq<Option<usize>>,
    queue: Seq<usize>,
    w: int,
    k: nat,
)
    requires
        rows_in_range(rows),
        bfs_state(rows, source, dist, queue, queue.len() as int),
        bfs_expanded(rows, dist, queue, queue.len() as int),
        0 <= w < rows.len(),
        reach_within(rows, source, w, k),
    ensures
        dist[w] is Some,
        dval(dist[w]) <= k,
    decreases k,
{
    if w == source {
    } else {
        let u = choose|u: int|
            #![trigger adjacent(rows, u, w)]
            0 <= u < rows.len() && reach_within(rows, source, u, (k - 1) as nat) && adjacent(rows, u, w);
        lemma_bfs_closed(rows, source, dist, queue, u, (k - 1) as nat);
        assert(dist[u] is Some);
        assert(queue.contains(u as usize));
        let i = choose|i: int| 0 <= i < queue.len() && queue[i] == u as usize;
        assert(adjacent(rows, queue[i] as int, w));
    }
}

/// Shortest-path distances from `source` by breadth-first search over the
/// adjacency rows; `None` marks nodes that cannot be reached.
pub fn bfs_distances(adj: &DedupAdjacency, source: usize) -> (dist: Vec<Option<usize>>)
    requires
        source < adj@.len(),
        rows_in_range(adj@),
    ensures
        is_distance_table(adj@, source as int, dist@),
{
    let ghost rows = adj@;
    let n = adj.node_count();
    let mut dist: Vec<Option<usize>> = Vec::new();
    let mut v: usize = 0;
    while v < n
        invariant
            v <= n,
            n == rows.len(),
            dist@.len() == v,
            forall|w: int| 0 <= w < v ==> #[trigger] dist@[w] is None,
        decreases n - v,
    {
        dist.push(None);
        v = v + 1;
    }
    proof {
        lemma_undiscovered_all(dist@);
        lemma_undiscovered_update(dist@, source as int, 0);
    }
    dist.set(source, Some(0));
    let mut queue: Vec<usize> = Vec::new();
    queue.push(source);
    let mut head: usize = 0;
    proof {
        assert forall|w: int| 0 <= w < n implies (#[trigger] dist@[w] is Some <==> queue@.contains(w as usize)) by {
            if queue@.contains(w as usize) {
                assert(queue@[0] == w);
            }
            if w == source {
                assert(queue@[0] == source);
            }
        }
        assert(reach_within(rows, source as int, source as int, 0));
    }
    while head < queue.len()
        invariant
            rows == adj@,
            n == rows.len(),
            rows_in_range(rows),
            bfs_state(rows, source as int, dist@, queue@, head as int),
            bfs_expanded(rows, dist@, queue@, head as int),
            head < queue@.len() ==> forall|j: int| 0 <= j < queue@.len() ==>
                dval(dist@[#[trigger] queue@[j] as int]) <= dval(dist@[queue@[head as int] as int]) + 1,
            queue@.len() + undiscovered(dist@) == n,
        decreases undiscovered(dist@) + queue@.len() - head,
    {
        let v = queue[head];
        let ghost h0 = head as int;
        let dv: usize = match dist[v] {
            Some(d) => d,
            None => 0,
        };
        assert(dval(dist@[v as int]) == dv);
        head = head + 1;
        let neighbors = adj.neighbors_ref(v);
        let mut j: usize = 0;
        while j < neighbors.len()
            invariant
                rows == adj@,
                n == rows.len(),
                rows_in_range(rows),
                neighbors@ == rows[v as int],
                0 <= h0 < queue@.len(),
                head == h0 + 1,
                queue@[h0] == v,
                dist@[v as int] == Some(dv),
                dv <= h0,
                j <= neighbors.len(),
                bfs_state(rows, source as int, dist@, queue@, head as int),
                bfs_expanded(rows, dist@, queue@, h0),
                forall|jj: int| 0 <= jj < j ==> dist@[#[trigger] neighbors@[jj] as int] is Some
                    && dval(dist@[neighbors@[jj] as int]) <= dv + 1,
                forall|i: int| 0 <= i < queue@.len() ==> dval(dist@[#[trigger] queue@[i] as int]) <= dv + 1,
                forall|i: int| h0 <= i < queue@.len() ==> dv <= dval(dist@[#[trigger] queue@[i] as int]),
                queue@.len() + undiscovered(dist@) == n,
            decreases neighbors.len() - j,
        {
            let w = neighbors[j];
            proof {
                assert(rows[v as int][j as int] == w);
                assert(w < n);
            }
            let ghost old_dist = dist@;
            let ghost old_queue = queue@;
            if dist[w].is_none() {
                proof {
                    lemma_undiscovered_update(dist@, w as int, (dv + 1) as usize);
                }
                dist.set(w, Some(dv + 1));
                queue.push(w);
                proof {
                    assert(adjacent(rows, v as int, w as int));
                    assert(reach_within(rows, source as int, v as int, dv as nat));
                    assert(reach_within(rows, source as int, w as int, (dv + 1) as nat));
                    assert forall|x: int| 0 <= x < n implies (#[trigger] dist@[x] is Some <==> queue@.contains(x as usize)) by {
                        if x == w {
                            assert(queue@[queue@.len() - 1] == w);
                        } else {
                            assert(dist@[x] == old_dist[x]);
                            if queue@.contains(x as usize) {
                                let k = choose|k: int| 0 <= k < queue@.len() && queue@[k] == x as usize;
                                assert(k < old_queue.len());
                                assert(old_queue[k] == x);
                            }
                            if old_queue.contains(x as usize) {
                                let k = choose|k: int| 0 <= k < old_queue.len() && old_queue[k] == x as usize;
                                assert(queue@[k] == x);
                            }
                        }
                    }
                    assert forall|i: int| 0 <= i < queue@.len() implies (dist@[#[trigger] queue@[i] as int] is Some
                        && dval(dist@[queue@[i] as int]) <= i) by {
                        if i < old_queue.len() {
                            assert(queue@[i] == old_queue[i]);
                            assert(old_dist[old_queue[i] as int] is Some);
                            assert(old_queue[i] != w);
                        }
                    }
                    assert forall|i: int, k: int| 0 <= i <= k < queue@.len() implies dval(dist@[#[trigger] queue@[i] as int])
                        <= dval(dist@[#[trigger] queue@[k] as int]) by {
                        if k < old_queue.len() {
                            assert(old_dist[old_queue[i] as int] is Some);
                            assert(old_dist[old_queue[k] as int] is Some);
                        } else if i < old_queue.len() {
                            assert(old_dist[old_queue[i] as int] is Some);
                        }
                    }
                    assert forall|x: int| 0 <= x < n implies (#[trigger] dist@[x] matches Some(d) ==> reach_within(rows, source as int, x, d as nat)) by {
                        if x != w {
                            assert(dist@[x] == old_dist[x]);
                        }
                    }
                    assert forall|i: int, y: int| 0 <= i < h0 && #[trigger] adjacent(rows, queue@[i] as int, y) implies
                        dist@[y] is Some && dval(dist@[y]) <= dval(dist@[#[trigger] queue@[i] as int]) + 1 by {
                        assert(queue@[i] == old_queue[i]);
                        assert(adjacent(rows, old_queue[i] as int, y));
                        assert(old_dist[old_queue[i] as int] is Some);
                        if y == w {
                            assert(false);
                        }
                    }
                    assert forall|jj: int| 0 <= jj < j + 1 implies dist@[#[trigger] neighbors@[jj] as int] is Some
                        && dval(dist@[neighbors@[jj] as int]) <= dv + 1 by {
                        if jj < j {
                            assert(old_dist[neighbors@[jj] as int] is Some);
                        }
                    }
                    assert forall|i: int| 0 <= i < queue@.len() implies dval(dist@[#[trigger] queue@[i] as int]) <= dv + 1 by {
                        if i < old_queue.len() {
                            assert(old_dist[old_queue[i] as int] is Some);
                            assert(old_queue[i] != w);
                        }
                    }
                    assert forall|i: int| h0 <= i < queue@.len() implies dv <= dval(dist@[#[trigger] queue@[i] as int]) by {
                        if i < old_queue.len() {
                            assert(old_dist[old_queue[i] as int] is Some);
                            assert(old_queue[i] != w);
                        }
                    }
                }
            } else {
                proof {
                    assert(queue@.contains(w));
                    let k = choose|k: int| 0 <= k < queue@.len() && queue@[k] == w;
                    assert(dval(dist@[queue@[k] as int]) <= dv + 1);
                }
            }
            j = j + 1;
        }
        proof {
            assert forall|i: int, y: int| 0 <= i < head && #[trigger] adjacent(rows, queue@[i] as int, y) implies
                dist@[y] is Some && dval(dist@[y]) <= dval(dist@[#[trigger] queue@[i] as int]) + 1 by {
                if i == h0 {
                    let jj = choose|jj: int| 0 <= jj < rows[v as int].len() && rows[v as int][jj] == y;
                    assert(neighbors@[jj] == y);
                }
            }
            if head < queue@.len() {
                assert(dv <= dval(dist@[queue@[head as int] as int]));
            }
        }
    }
    proof {
        assert forall|x: int| 0 <= x < dist@.len() implies match #[trigger] dist@[x] {
            Some(d) => is_shortest_distance(rows, source as int, x, d as nat),
            None => forall|k: nat| !#[trigger] reach_within(rows, source as int, x, k),
        } by {
            match dist@[x] {
                Some(d) => {
                    assert forall|k: nat| k < d implies !#[trigger] reach_within(rows, source as int, x, k) by {
                        if reach_within(rows, source as int, x, k) {
                            lemma_bfs_closed(rows, source as int, dist@, queue@, x, k);
                        }
                    }
                },
                None => {
                    assert forall|k: nat| !#[trigger] reach_within(rows, source as int, x, k) by {
                        if reach_within(rows, source as int, x, k) {
                            lemma_bfs_closed(rows, source as int, dist@, queue@, x, k);
                        }
                    }
                },
            }
        }
    }
    dist
}

/// Shortest distances from a source are unique: two distance tables for the
/// same rows and source are equal.
pub proof fn lemma_distance_table_unique(
    rows: Seq<Seq<usize>>,
    source: int,
    dist1: Seq<Option<usize>>,
    dist2: Seq<Option<usize>>,
)
    requires
        is_distance_table(rows, source, dist1),
        is_distance_table(rows, source, dist2),
    ensures
        dist1 == dist2,
{
    assert forall|v: int| 0 <= v < dist1.len() implies dist1[v] == dist2[v] by {
        match (dist1[v], dist2[v]) {
            (Some(a), Some(b)) => {
                if a < b {
                    assert(reach_within(rows, source, v, a as nat));
                    assert(!reach_within(rows, source, v, a as nat));
                }
                if b < a {
                    assert(reach_within(rows, source, v, b as nat));
                    assert(!reach_within(rows, source, v, b as nat));
                }
            },
            (Some(a), None) => {
                assert(reach_within(rows, source, v, a as nat));
            },
            (None, Some(b)) => {
                assert(reach_within(rows, source, v, b as nat));
            },
            (None, None) => {},
        }
    }
    assert(dist1 =~= dist2);
}

/// Number of reached peers: entries at a positive distance.
pub open spec fn reached_count(dist: Seq<Option<usize>>) -> nat
    decreases dist.len(),
{
    if dist.len() == 0 {
        0
    } else {
        reached_count(dist.drop_last()) + match dist.last() {
            Some(d) => if d > 0 { 1nat } else { 0nat },
            None => 0nat,
        }
    }
}

/// Sum of the positive distances.
pub open spec fn reached_total(dist: Seq<Option<usize>>) -> nat
    decreases dist.len(),
{
    if dist.len() == 0 {
        0
    } else {
        reached_total(dist.drop_last()) + match dist.last() {
            Some(d) => if d > 0 { d as nat } else { 0nat },
            None => 0nat,
        }
    }
}

/// Classic closeness as the product `inverse_mean_distance * scale`.
#[derive(Debug, Clone, Copy, PartialEq, Eq, Structural)]
pub struct ClassicCloseness {
    /// Reachable peers over their total distance, `r / Σ d(v, u)`; zero when
    /// no peer is reachable.
    pub inverse_mean_distance: Ratio,
    /// The Wasserman-Faust reachable fraction `r / (n - 1)` when normalized,
    /// otherwise one.
    pub scale: Ratio,
}

/// `c` is the classic closeness of a node whose distance table is `dist`.
pub open spec fn is_classic_closeness(dist: Seq<Option<usize>>, normalized: bool, c: ClassicCloseness) -> bool {
    let r = reached_count(dist);
    if r == 0 {
        is_ratio(c.inverse_mean_distance, 0, 1) && is_ratio(c.scale, 1, 1)
    } else {
        &&& is_ratio(c.inverse_mean_distance, r as int, reached_total(dist) as int)
        &&& if normalized {
            is_ratio(c.scale, r as int, dist.len() - 1)
        } else {
            is_ratio(c.scale, 1, 1)
        }
    }
}

proof fn lemma_reached_step(dist: Seq<Option<usize>>, i: int)
    requires
        0 <= i < dist.len(),
    ensures
        reached_count(dist.subrange(0, i + 1)) == reached_count(dist.subrange(0, i)) + match dist[i] {
            Some(d) => if d > 0 { 1nat } else { 0nat },
            None => 0nat,
        },
        reached_total(dist.subrange(0, i + 1)) == reached_total(dist.subrange(0, i)) + match dist[i] {
            Some(d) => if d > 0 { d as nat } else { 0nat },
            None => 0nat,
        },
{
    assert(dist.subrange(0, i + 1).drop_last() =~= dist.subrange(0, i));
}

/// Each reached peer is at distance at least one, so the total distance is at
/// least the number of reached peers; and a table with an entry that is not
/// a reached peer (the source itself) counts fewer peers than entries.
pub proof fn lemma_reached_bounds(dist: Seq<Option<usize>>, source: int)
    requires
        0 <= source < dist.len(),
        dist[source] == Some(0usize),
    ensures
        reached_count(dist) <= reached_total(dist),
        reached_count(dist) + 1 <= dist.len(),
    decreases dist.len(),
{
    lemma_reached_le_total(dist);
    if source < dist.len() - 1 {
        assert(dist.drop_last()[source] == Some(0usize));
        lemma_reached_bounds(dist.drop_last(), source);
    } else {
        lemma_reached_le_len(dist.drop_last());
    }
}

proof fn lemma_reached_le_total(dist: Seq<Option<usize>>)
    ensures
        reached_count(dist) <= reached_total(dist),
    decreases dist.len(),
{
    if dist.len() > 0 {
        lemma_reached_le_total(dist.drop_last());
    }
}

proof fn lemma_reached_le_len(dist: Seq<Option<usize>>)
    ensures
        reached_count(dist) <= dist.len(),
    decreases dist.len(),
{
    if dist.len() > 0 {
        lemma_reached_le_len(dist.drop_last());
    }
}

/// The only node at distance zero is the source itself, so the reached peers
/// are exactly the other nodes reachable from the source.
pub proof fn lemma_zero_distance_is_source(rows: Seq<Seq<usize>>, source: int, dist: Seq<Option<usize>>, v: int)
    requires
        is_distance_table(rows, source, dist),
        0 <= v < dist.len(),
        dist[v] == Some(0usize),
    ensures
        v == source,
{
    assert(reach_within(rows, source, v, 0));
}

/// The classic closeness value, `inverse_mean_distance * scale`, is the
/// number of reachable peers `r` over their total distance `Σ d`, times one
/// without normalization and times `r / (n - 1)` with it; zero when no peer is
/// reachable.
pub proof fn lemma_classic_closeness_value(dist: Seq<Option<usize>>, normalized: bool, c: ClassicCloseness)
    requires
        is_classic_closeness(dist, normalized, c),
    ensures
        reached_count(dist) == 0 ==> c.inverse_mean_distance.numerator == 0,
        !normalized ==> c.scale.numerator == c.scale.denominator,
        reached_count(dist) > 0 ==> c.inverse_mean_distance.numerator * reached_total(dist)
            == c.inverse_mean_distance.denominator * reached_count(dist),
        normalized && reached_count(dist) > 0 ==> c.scale.numerator * (dist.len() - 1)
            == c.scale.denominator * reached_count(dist),
        !normalized ==> c.inverse_mean_distance.numerator * c.scale.numerator * reached_total(dist)
            == c.inverse_mean_distance.denominator * c.scale.denominator * reached_count(dist),
{
    let r = reached_count(dist) as int;
    let t = reached_total(dist) as int;
    let a = c.inverse_mean_distance.numerator as int;
    let b = c.inverse_mean_distance.denominator as int;
    let x = c.scale.numerator as int;
    let y = c.scale.denominator as int;
    if r > 0 {
        assert(a * t == b * r) by (nonlinear_arith)
            requires a == r, b == t;
        if normalized {
            assert(x * (dist.len() - 1) == y * r) by (nonlinear_arith)
                requires x == r, y == dist.len() - 1;
        }
    }
    if !normalized {
        if r == 0 {
            assert(a * x * t == b * y * r) by (nonlinear_arith)
                requires x == 1, y == 1, r == 0, a == 0;
        } else {
            assert(a * x * t == b * y * r) by (nonlinear_arith)
                requires x == 1, y == 1, a == r, b == t;
        }
    }
}

/// Classic closeness of `source`: reachable peers over their total distance,
/// scaled by the reachable fraction `r / (n - 1)` when `normalized`.
pub fn classic_closeness(adj: &DedupAdjacency, source: usize, normalized: bool) -> (c: ClassicCloseness)
    requires
        source < adj@.len(),
        rows_in_range(adj@),
    ensures
        forall|dist: Seq<Option<usize>>| is_distance_table(adj@, source as int, dist) ==> is_classic_closeness(dist, normalized, c),
        forall|dist: Seq<Option<usize>>| #[trigger] is_distance_table(adj@, source as int, dist) ==> {
            &&& c.inverse_mean_distance.numerator == reached_count(dist)
            &&& reached_count(dist) > 0 ==> c.inverse_mean_distance.denominator == reached_total(dist)
            &&& normalized && reached_count(dist) > 0 ==> c.scale.numerator == reached_count(dist)
                && c.scale.denominator == dist.len() - 1
        },
        !normalized ==> c.scale.numerator == 1 && c.scale.denominator == 1,
        0 < c.inverse_mean_distance.denominator,
        c.inverse_mean_distance.numerator <= c.inverse_mean_distance.denominator,
        0 < c.scale.denominator,
        c.scale.numerator <= c.scale.denominator,
{
    let dist = bfs_distances(adj, source);
    let mut reachable: usize = 0;
    let mut total: u128 = 0;
    let mut i: usize = 0;
    proof {
        assert(dist@.subrange(0, 0) =~= Seq::<Option<usize>>::empty());
        lemma_usize_square_fits();
    }
    while i < dist.len()
        invariant
            i <= dist.len(),
            reachable <= i,
            reachable == reached_count(dist@.subrange(0, i as int)),
            total == reached_total(dist@.subrange(0, i as int)),
            total <= (i as int) * (usize::MAX as int),
            (usize::MAX as int) * (usize::MAX as int) < u128::MAX,
        decreases dist.len() - i,
    {
        proof {
            lemma_reached_step(dist@, i as int);
            lemma_mul_bound(i as int, i as int, usize::MAX as int);
            lemma_mul_bound(i as int + 1, i as int + 1, usize::MAX as int);
        }
        if let Some(d) = dist[i] {
            if d > 0 {
                reachable = reachable + 1;
                total = total + d as u128;
            }
        }
        i = i + 1;
    }
    proof {
        assert(dist@.subrange(0, dist.len() as int) =~= dist@);
        assert forall|other: Seq<Option<usize>>| is_distance_table(adj@, source as int, other) implies other == dist@ by {
            lemma_distance_table_unique(adj@, source as int, other, dist@);
        }
        assert(reach_within(adj@, source as int, source as int, 0));
        assert(dist@[source as int] == Some(0usize));
        lemma_reached_bounds(dist@, source as int);
    }
    if reachable == 0 {
        return ClassicCloseness {
            inverse_mean_distance: Ratio { numerator: 0, denominator: 1 },
            scale: Ratio { numerator: 1, denominator: 1 },
        };
    }
    let inverse_mean_distance = Ratio { numerator: reachable as u128, denominator: total };
    let scale = if normalized {
        Ratio { numerator: reachable as u128, denominator: dist.len() as u128 - 1 }
    } else {
        Ratio { numerator: 1, denominator: 1 }
    };
    ClassicCloseness { inverse_mean_distance, scale }
}

} // verus!
