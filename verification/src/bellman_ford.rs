//! The Bellman-Ford algorithm: shortest distances from one node, with negative
//! weights allowed and negative cycles detected.

use crate::paths::{
    capped, is_least_weight, is_walk, lemma_shortcut, lemma_walk_drop_last, lemma_walk_push,
    lemma_weight_capped, negative_cycle_from, no_negative_cycle_from, reachable, walk_weight, within,
    Arc,
};
use crate::{GraphAlgorithm, GraphError};
use vstd::prelude::*;

verus! {

/// Edge in the graph.
#[derive(Debug, Clone)]
pub struct Edge {
    /// Source node.
    pub source: usize,
    /// Destination node.
    pub destination: usize,
    /// Weight of the edge.
    pub weight: i32,
}

/// Bellman-Ford Algorithm.
/// Compute shortest paths from a single source vertex to all of the other vertices in a weighted digraph.
#[derive(Debug, Clone)]
pub struct BellmanFordAlgorithm {
    /// Total number of vertices in the graph.
    pub total_vertices: usize,
    /// Edges in the graph.
    pub edges: Vec<Edge>,
}

/// An edge as a triple of numbers.
pub open spec fn arc_of(e: Edge) -> Arc {
    (e.source as int, e.destination as int, e.weight as int)
}

/// The size of a weight, whatever its sign.
pub open spec fn magnitude(w: int) -> int {
    if w < 0 {
        -w
    } else {
        w
    }
}

/// The sizes of the weights of the first `n` edges, summed.
pub open spec fn span_upto(edges: Seq<Edge>, n: int) -> int
    decreases n,
{
    if n <= 0 {
        0
    } else {
        span_upto(edges, n - 1) + magnitude(edges[n - 1].weight as int)
    }
}

/// The edges from `source` to each of `targets`, in order.
pub open spec fn fanned(source: usize, targets: Seq<(usize, i32)>) -> Seq<Edge> {
    Seq::new(
        targets.len(),
        |i: int| Edge { source, destination: targets[i].0, weight: targets[i].1 },
    )
}

/// The edges that `nodes` list, in order.
pub open spec fn listed(nodes: Seq<(usize, Vec<(usize, i32)>)>) -> Seq<Edge>
    decreases nodes.len(),
{
    if nodes.len() == 0 {
        Seq::empty()
    } else {
        listed(nodes.drop_last()) + fanned(nodes.last().0, nodes.last().1@)
    }
}

/// `total` is the least count that is no less than `base` and lies above
/// `source` and above every one of `targets`.
pub open spec fn covers(total: int, base: int, source: usize, targets: Seq<(usize, i32)>) -> bool {
    &&& base <= total
    &&& source < total
    &&& forall|i: int| 0 <= i < targets.len() ==> (#[trigger] targets[i]).0 < total
    &&& {
        ||| total == base
        ||| total == source + 1
        ||| exists|i: int| 0 <= i < targets.len() && total == (#[trigger] targets[i]).0 + 1
    }
}

/// `total` is the least count that is no less than `base` and lies above every
/// node that `nodes` name, as a source or as a target.
pub open spec fn covers_all(total: int, base: int, nodes: Seq<(usize, Vec<(usize, i32)>)>) -> bool {
    &&& base <= total
    &&& forall|k: int| 0 <= k < nodes.len() ==> (#[trigger] nodes[k]).0 < total
    &&& forall|k: int, i: int|
        0 <= k < nodes.len() && 0 <= i < nodes[k].1@.len() ==> (#[trigger] nodes[k].1@[i]).0 < total
    &&& {
        ||| total == base
        ||| exists|k: int| 0 <= k < nodes.len() && total == (#[trigger] nodes[k]).0 + 1
        ||| exists|k: int, i: int|
            0 <= k < nodes.len() && 0 <= i < nodes[k].1@.len() && total == (
            #[trigger] nodes[k].1@[i]).0 + 1
    }
}

/// Every node that `nodes` name can be counted: none is the largest number.
pub open spec fn countable(nodes: Seq<(usize, Vec<(usize, i32)>)>) -> bool {
    &&& forall|k: int| 0 <= k < nodes.len() ==> (#[trigger] nodes[k]).0 < usize::MAX
    &&& forall|k: int, i: int|
        0 <= k < nodes.len() && 0 <= i < nodes[k].1@.len() ==> (#[trigger] nodes[k].1@[i]).0
            < usize::MAX
}

impl BellmanFordAlgorithm {
    /// The edges of the graph.
    pub open spec fn arcs(&self) -> Set<Arc> {
        Set::new(
            |a: Arc| exists|i: int| 0 <= i < self.edges@.len() && arc_of(#[trigger] self.edges@[i]) == a,
        )
    }

    /// Every edge joins two of the graph's vertices.
    pub open spec fn well_formed(&self) -> bool {
        forall|i: int|
            0 <= i < self.edges@.len() ==> (#[trigger] self.edges@[i]).source < self.total_vertices
                && self.edges@[i].destination < self.total_vertices
    }

    /// The sizes of all weights, summed.
    pub open spec fn span(&self) -> int {
        span_upto(self.edges@, self.edges@.len() as int)
    }

    /// Create a new instance of Bellman-Ford Algorithm.
    pub fn new() -> (engine: Self)
        ensures
            engine.total_vertices == 0,
            engine.edges@ == Seq::<Edge>::empty(),
            engine.well_formed(),
    {
        BellmanFordAlgorithm { total_vertices: 0, edges: Vec::new() }
    }

    /// Set a node's edges to the graph: one edge from `source` to each listed
    /// destination. With no destination listed, `source` alone is registered.
    pub fn add_edge(&mut self, source: usize, edges: Vec<(usize, i32)>)
        requires
            source < usize::MAX,
            forall|i: int| 0 <= i < edges@.len() ==> (#[trigger] edges@[i]).0 < usize::MAX,
        ensures
            final(self).edges@ == old(self).edges@ + fanned(source, edges@),
            covers(
                final(self).total_vertices as int,
                old(self).total_vertices as int,
                source,
                edges@,
            ),
            old(self).well_formed() ==> final(self).well_formed(),
    {
        if edges.len() == 0 {
            if self.total_vertices < source + 1 {
                self.total_vertices = source + 1;
            }
            proof {
                assert(self.edges@ =~= old(self).edges@ + fanned(source, edges@));
            }
            return ;
        }
        let ghost all = edges@;
        proof {
            assert(self.edges@ =~= old(self).edges@ + fanned(source, all.subrange(0, 0)));
        }
        for (destination, weight) in it: edges
            invariant
                it.seq() == all,
                source < usize::MAX,
                forall|i: int| 0 <= i < all.len() ==> (#[trigger] all[i]).0 < usize::MAX,
                self.edges@ == old(self).edges@ + fanned(source, all.subrange(0, it.index() as int)),
                old(self).total_vertices <= self.total_vertices,
                it.index() > 0 ==> covers(
                    self.total_vertices as int,
                    old(self).total_vertices as int,
                    source,
                    all.subrange(0, it.index() as int),
                ),
                it.index() == 0 ==> self.total_vertices == old(self).total_vertices,
                old(self).well_formed() ==> self.well_formed(),
        {
            let ghost at = it.index() as int;
            let ghost before = self.edges@;
            let ghost count = self.total_vertices;
            assert(all[at] == (destination, weight));
            self.edges.push(Edge { source, weight, destination });
            if self.total_vertices < source + 1 {
                self.total_vertices = source + 1;
            }
            if self.total_vertices < destination + 1 {
                self.total_vertices = destination + 1;
            }
            proof {
                let seen = all.subrange(0, at);
                let more = all.subrange(0, at + 1);
                assert(more[at] == all[at]);
                assert forall|i: int| 0 <= i < more.len() implies (#[trigger] more[i]).0
                    < self.total_vertices by {
                    if i < at {
                        assert(more[i] == seen[i]);
                    }
                }
                if self.total_vertices == count && at > 0 {
                    if count != old(self).total_vertices && count != source + 1 {
                        let i = choose|i: int| 0 <= i < seen.len() && count == (#[trigger] seen[i]).0 + 1;
                        assert(more[i] == seen[i]);
                    }
                }
                assert(self.edges@ =~= old(self).edges@ + fanned(source, more));
                if old(self).well_formed() {
                    assert forall|i: int| 0 <= i < self.edges@.len() implies (
                    #[trigger] self.edges@[i]).source < self.total_vertices
                        && self.edges@[i].destination < self.total_vertices by {
                        if i < before.len() {
                            assert(self.edges@[i] == before[i]);
                        }
                    }
                }
            }
        }
        proof {
            assert(all.subrange(0, all.len() as int) =~= all);
        }
    }

    /// Set multiple nodes' edges to the graph, in order.
    pub fn add_edges(&mut self, nodes: Vec<(usize, Vec<(usize, i32)>)>)
        requires
            countable(nodes@),
        ensures
            final(self).edges@ == old(self).edges@ + listed(nodes@),
            covers_all(final(self).total_vertices as int, old(self).total_vertices as int, nodes@),
            old(self).well_formed() ==> final(self).well_formed(),
    {
        let ghost all = nodes@;
        proof {
            assert(self.edges@ =~= old(self).edges@ + listed(all.subrange(0, 0)));
        }
        for (source, edges) in it: nodes
            invariant
                it.seq() == all,
                countable(all),
                self.edges@ == old(self).edges@ + listed(all.subrange(0, it.index() as int)),
                covers_all(
                    self.total_vertices as int,
                    old(self).total_vertices as int,
                    all.subrange(0, it.index() as int),
                ),
                old(self).well_formed() ==> self.well_formed(),
        {
            let ghost at = it.index() as int;
            let ghost count = self.total_vertices;
            let ghost seen = all.subrange(0, at);
            let ghost more = all.subrange(0, at + 1);
            assert(all[at] == (source, edges));
            assert(forall|i: int| 0 <= i < all[at].1@.len() ==> (#[trigger] all[at].1@[i]).0 < usize::MAX);
            self.add_edge(source, edges);
            proof {
                assert(more.drop_last() =~= seen);
                assert(more.last() == all[at]);
                assert(self.edges@ =~= old(self).edges@ + listed(more));
                assert forall|k: int| 0 <= k < more.len() implies (#[trigger] more[k]).0
                    < self.total_vertices by {
                    if k < at {
                        assert(more[k] == seen[k]);
                    }
                }
                assert forall|k: int, i: int|
                    0 <= k < more.len() && 0 <= i < more[k].1@.len() implies (
                #[trigger] more[k].1@[i]).0 < self.total_vertices by {
                    if k < at {
                        assert(more[k] == seen[k]);
                        assert(seen[k].1@[i].0 < count);
                    }
                }
                if self.total_vertices == count {
                    if count != old(self).total_vertices {
                        if exists|k: int| 0 <= k < seen.len() && count == (#[trigger] seen[k]).0 + 1 {
                            let k = choose|k: int|
                                0 <= k < seen.len() && count == (#[trigger] seen[k]).0 + 1;
                            assert(more[k] == seen[k]);
                        } else {
                            let (k, i) = choose|k: int, i: int|
                                0 <= k < seen.len() && 0 <= i < seen[k].1@.len() && count == (
                                #[trigger] seen[k].1@[i]).0 + 1;
                            assert(more[k] == seen[k]);
                            assert(count == more[k].1@[i].0 + 1);
                        }
                    }
                } else if self.total_vertices != all[at].0 + 1 {
                    let i = choose|i: int|
                        0 <= i < all[at].1@.len() && self.total_vertices == (
                        #[trigger] all[at].1@[i]).0 + 1;
                    assert(self.total_vertices == more[at].1@[i].0 + 1);
                } else {
                    assert(self.total_vertices == more[at].0 + 1);
                }
            }
        }
        proof {
            assert(all.subrange(0, all.len() as int) =~= all);
        }
    }
}

impl Default for BellmanFordAlgorithm {
    /// Create a new default instance of Bellman-Ford Algorithm.
    fn default() -> (engine: Self)
        ensures
            engine.total_vertices == 0,
            engine.edges@ == Seq::<Edge>::empty(),
            engine.well_formed(),
    {
        Self::new()
    }
}

/// Each distance that is not the sentinel is the weight of a walk from `origin`.
pub open spec fn walked(g: Set<Arc>, origin: int, d: Seq<i32>) -> bool {
    forall|x: int|
        0 <= x < d.len() && #[trigger] d[x] != i32::MAX ==> exists|p: Seq<Arc>|
            is_walk(g, p, origin, x) && walk_weight(p) == d[x]
}

/// Each distance that is not the sentinel lies between `low` and `high`.
pub open spec fn fenced(d: Seq<i32>, low: int, high: int) -> bool {
    forall|x: int| 0 <= x < d.len() && #[trigger] d[x] != i32::MAX ==> low <= d[x] <= high
}

/// No distance that is not the sentinel reaches the sentinel by the weight of an edge.
pub open spec fn headroom(d: Seq<i32>, edges: Seq<Edge>) -> bool {
    forall|x: int, i: int|
        0 <= x < d.len() && #[trigger] d[x] != i32::MAX && 0 <= i < edges.len() ==> d[x] + (
        #[trigger] edges[i]).weight < i32::MAX
}

/// The edge `e` cannot improve on `d`.
pub open spec fn relaxed(d: Seq<i32>, e: Edge) -> bool {
    d[e.source as int] != i32::MAX ==> d[e.destination as int] <= d[e.source as int] + e.weight
}

/// None of the first `n` edges can improve on `d`.
pub open spec fn relaxed_upto(d: Seq<i32>, edges: Seq<Edge>, n: int) -> bool {
    forall|i: int| 0 <= i < n ==> relaxed(d, #[trigger] edges[i])
}

/// No walk from `origin` of at most `hops` edges undercuts `d`.
pub open spec fn covered(g: Set<Arc>, origin: int, d: Seq<i32>, hops: int) -> bool {
    forall|p: Seq<Arc>, x: int|
        0 <= x < d.len() && #[trigger] is_walk(g, p, origin, x) && p.len() <= hops ==> d[x]
            != i32::MAX && d[x] <= walk_weight(p)
}

/// No walk from `origin` of at most `hops` edges whose last edge is among the
/// first `n` undercuts `d`.
pub open spec fn covered_via(
    g: Set<Arc>,
    origin: int,
    d: Seq<i32>,
    hops: int,
    edges: Seq<Edge>,
    n: int,
) -> bool {
    forall|p: Seq<Arc>, x: int, i: int|
        0 <= x < d.len() && #[trigger] is_walk(g, p, origin, x) && 0 < p.len() <= hops && 0 <= i < n
            && arc_of(#[trigger] edges[i]) == p.last() ==> d[x] != i32::MAX && d[x] <= walk_weight(
            p,
        )
}

/// How many of the first `n` distances are not the sentinel.
pub open spec fn reached_upto(d: Seq<i32>, n: int) -> int
    decreases n,
{
    if n <= 0 {
        0
    } else {
        reached_upto(d, n - 1) + if d[n - 1] != i32::MAX {
            1int
        } else {
            0int
        }
    }
}

/// The largest size of a weight among the first `n` edges.
pub open spec fn heaviest_upto(edges: Seq<Edge>, n: int) -> int
    decreases n,
{
    if n <= 0 {
        0
    } else if heaviest_upto(edges, n - 1) < magnitude(edges[n - 1].weight as int) {
        magnitude(edges[n - 1].weight as int)
    } else {
        heaviest_upto(edges, n - 1)
    }
}

/// The sizes of the weights add up monotonically, and each weight is within the whole.
pub proof fn lemma_span_grows(edges: Seq<Edge>, i: int, n: int)
    requires
        0 <= i <= n,
    ensures
        0 <= span_upto(edges, i) <= span_upto(edges, n),
        i < n ==> span_upto(edges, i) + magnitude(edges[i].weight as int) <= span_upto(edges, n),
    decreases n - i,
{
    if i < n {
        lemma_span_grows(edges, i + 1, n);
        lemma_span_zero(edges, i);
    } else {
        lemma_span_zero(edges, i);
    }
}

/// A sum of sizes is never negative.
pub proof fn lemma_span_zero(edges: Seq<Edge>, n: int)
    ensures
        0 <= span_upto(edges, n),
    decreases n,
{
    if n > 0 {
        lemma_span_zero(edges, n - 1);
    }
}

/// No weight among the first `n` edges is larger in size than the heaviest.
pub proof fn lemma_heaviest_caps(edges: Seq<Edge>, n: int, at: int)
    requires
        0 <= at < n,
    ensures
        0 <= heaviest_upto(edges, n),
        magnitude(edges[at].weight as int) <= heaviest_upto(edges, n),
    decreases n,
{
    if at < n - 1 {
        lemma_heaviest_caps(edges, n - 1, at);
    } else if n > 1 {
        lemma_heaviest_caps(edges, n - 1, 0);
    }
}

/// Among the first `n` distances as many are reached as there are, at most;
/// giving one of them a distance adds one where it had none, and nothing else.
pub proof fn lemma_reached_update(d: Seq<i32>, v: int, val: i32, n: int)
    requires
        0 <= v < d.len(),
        0 <= n <= d.len(),
        val != i32::MAX,
    ensures
        0 <= reached_upto(d, n) <= n,
        reached_upto(d.update(v, val), n) == reached_upto(d, n) + if v < n && d[v] == i32::MAX {
            1int
        } else {
            0int
        },
    decreases n,
{
    if n > 0 {
        lemma_reached_update(d, v, val, n - 1);
    }
}

/// Where every distance is the sentinel, none is reached.
pub proof fn lemma_blank(d: Seq<i32>, n: int)
    requires
        0 <= n <= d.len(),
        forall|x: int| 0 <= x < d.len() ==> d[x] == i32::MAX,
    ensures
        reached_upto(d, n) == 0,
    decreases n,
{
    if n > 0 {
        lemma_blank(d, n - 1);
    }
}

impl BellmanFordAlgorithm {
    /// The largest size of a weight in the graph.
    pub open spec fn cap(&self) -> int {
        heaviest_upto(self.edges@, self.edges@.len() as int)
    }

    /// No negative cycle is reached from `start`, and a walk with an edge for
    /// each vertex stays within the range of a distance.
    pub open spec fn calm(&self, start: int) -> bool {
        no_negative_cycle_from(self.arcs(), start) && self.total_vertices * self.cap() < i32::MAX
    }

    /// All the weights together, once for each vertex, stay within the range of
    /// a distance: as far as the rounds of relaxation can go, negative cycles
    /// or not.
    pub open spec fn small(&self) -> bool {
        self.total_vertices * self.span() < i32::MAX
    }

    /// The distance that a run from `start` reports for node `v`: the sentinel
    /// where no walk leads there, else the least weight of a walk from `start`.
    pub open spec fn is_distance(&self, start: int, v: int, d: i32) -> bool {
        if d == i32::MAX {
            !reachable(self.arcs(), start, v)
        } else {
            is_least_weight(self.arcs(), start, v, d as int)
        }
    }

    /// Where no edge can improve on `d`, and adding a weight to a distance never
    /// reaches the sentinel, a walk from a node with a distance leads to a node
    /// with a distance that is no more than the first plus the walk's weight.
    pub proof fn lemma_relaxed_along(&self, d: Seq<i32>, p: Seq<Arc>, a: int, b: int)
        requires
            self.well_formed(),
            d.len() == self.total_vertices,
            relaxed_upto(d, self.edges@, self.edges@.len() as int),
            headroom(d, self.edges@),
            is_walk(self.arcs(), p, a, b),
            0 <= a < d.len(),
            d[a] != i32::MAX,
        ensures
            0 <= b < d.len(),
            d[b] != i32::MAX,
            d[b] <= d[a] + walk_weight(p),
        decreases p.len(),
    {
        if p.len() > 0 {
            let e = p.last();
            lemma_walk_drop_last(self.arcs(), p, a, b);
            self.lemma_relaxed_along(d, p.drop_last(), a, e.0);
            let i = choose|i: int| 0 <= i < self.edges@.len() && arc_of(#[trigger] self.edges@[i]) == e;
            assert(relaxed(d, self.edges@[i]));
            assert(d[e.0] + self.edges@[i].weight < i32::MAX);
        }
    }

    /// Every edge of a well-formed graph joins two nodes below the number of
    /// vertices and weighs no more than the heaviest.
    pub proof fn lemma_arcs_shape(&self)
        requires
            self.well_formed(),
        ensures
            within(self.arcs(), self.total_vertices as int),
            capped(self.arcs(), self.cap()),
            0 <= self.cap(),
            0 <= self.span(),
    {
        let n = self.edges@.len() as int;
        assert forall|e: Arc| #[trigger] self.arcs().contains(e) implies 0 <= e.0
            < self.total_vertices && 0 <= e.1 < self.total_vertices && -self.cap() <= e.2
            <= self.cap() by {
            let i = choose|i: int| 0 <= i < self.edges@.len() && arc_of(#[trigger] self.edges@[i]) == e;
            lemma_heaviest_caps(self.edges@, n, i);
        }
        if n > 0 {
            lemma_heaviest_caps(self.edges@, n, 0);
        }
        lemma_span_zero(self.edges@, n);
    }

    /// Where no negative cycle is reached from `origin`, no walk from `origin`
    /// weighs less than the heaviest edge taken once for each vertex but one.
    pub proof fn lemma_walk_floor(&self, origin: int, p: Seq<Arc>, x: int)
        requires
            self.well_formed(),
            0 <= origin < self.total_vertices,
            no_negative_cycle_from(self.arcs(), origin),
            is_walk(self.arcs(), p, origin, x),
        ensures
            -((self.total_vertices - 1) * self.cap()) <= walk_weight(p),
    {
        self.lemma_arcs_shape();
        let q = lemma_shortcut(self.arcs(), self.total_vertices as int, p, origin, x);
        lemma_weight_capped(self.arcs(), q, origin, x, self.cap());
        let cap = self.cap();
        let n = self.total_vertices as int;
        assert(q.len() * cap <= (n - 1) * cap) by (nonlinear_arith)
            requires
                q.len() <= n - 1,
                0 <= cap,
        ;
    }
}

impl GraphAlgorithm for BellmanFordAlgorithm {
    /// Type of node.
    type Node = isize;

    /// Type of weight.
    type Weight = Vec<i32>;

    /// A run needs no more than a start to fail for want of one. With a start,
    /// the start is one of the graph's vertices, every edge joins two of them,
    /// and no sum that the rounds of relaxation form leaves the range of a
    /// distance: either no negative cycle is reached and the weights are
    /// moderate, or they are small enough for the worst that negative cycles
    /// can do.
    open spec fn admits(&self, start: Option<isize>) -> bool {
        match start {
            None => true,
            Some(s) => {
                &&& 0 <= s < self.total_vertices
                &&& self.well_formed()
                &&& (self.calm(s as int) || self.small())
            },
        }
    }

    /// Without a start the run fails. With one, it fails exactly where a cycle
    /// of negative weight can be reached from the start, and else gives the
    /// distance from the start for each vertex.
    open spec fn computes(&self, start: Option<isize>, outcome: Result<Vec<i32>, GraphError>) -> bool {
        match start {
            None => outcome == Err::<Vec<i32>, GraphError>(GraphError::MissingStartNode),
            Some(s) => match outcome {
                Ok(d) => {
                    &&& !negative_cycle_from(self.arcs(), s as int)
                    &&& d@.len() == self.total_vertices
                    &&& d@[s as int] == 0
                    &&& forall|v: int| 0 <= v < d@.len() ==> self.is_distance(s as int, v, #[trigger] d@[v])
                    &&& relaxed_upto(d@, self.edges@, self.edges@.len() as int)
                },
                Err(e) => e == GraphError::NegativeWeightCycle && negative_cycle_from(
                    self.arcs(),
                    s as int,
                ),
            },
        }
    }

    /// Run Bellman-Ford Algorithm.
    fn run(&self, start: Option<isize>) -> (outcome: Result<Vec<i32>, GraphError>) {
        let first = match start {
            None => {
                return Err(GraphError::MissingStartNode);
            },
            Some(s) => s,
        };
        let origin = first as usize;
        let total = self.total_vertices;
        let ghost n = total as int;
        let ghost g = self.arcs();
        let ghost span = self.span();
        let ghost cap = self.cap();
        let ghost calm = self.calm(first as int);

        let mut distances = vec![i32::MAX; total];
        let ghost blank = distances@;
        distances.set(origin, 0);

        let ghost mut low: int = 0;
        let ghost mut high: int = 0;
        proof {
            self.lemma_arcs_shape();
            assert(is_walk(g, Seq::<Arc>::empty(), origin as int, origin as int));
            assert(walk_weight(Seq::<Arc>::empty()) == 0);
            assert(0 * span == 0);
            assert forall|p: Seq<Arc>, x: int|
                0 <= x < distances@.len() && #[trigger] is_walk(g, p, origin as int, x) && p.len()
                    <= 0 implies distances@[x] != i32::MAX && distances@[x] <= walk_weight(p) by {
                assert(p.len() == 0);
            }
            if calm {
                lemma_blank(blank, n);
                lemma_reached_update(blank, origin as int, 0, n);
                assert(distances@ == blank.update(origin as int, 0));
                assert((n - 1) * cap >= 0) by (nonlinear_arith)
                    requires
                        n >= 1,
                        cap >= 0,
                ;
                assert((1 - 1) * cap == 0);
                low = -((n - 1) * cap);
            }
        }

        let mut round: usize = 0;
        let mut settled = false;
        while round < total - 1 && !settled
            invariant
                g == self.arcs(),
                span == self.span(),
                cap == self.cap(),
                0 <= span,
                0 <= cap,
                total == self.total_vertices,
                n == total,
                self.well_formed(),
                within(g, n),
                calm ==> no_negative_cycle_from(g, origin as int) && n * cap < i32::MAX && low == -((n
                    - 1) * cap) && high == (reached_upto(distances@, n) - 1) * cap,
                !calm ==> n * span < i32::MAX && high == round * span && low == -high,
                0 <= origin < total,
                distances@.len() == total,
                0 <= round <= total - 1,
                distances@[origin as int] <= 0,
                walked(g, origin as int, distances@),
                fenced(distances@, low, high),
                settled ==> relaxed_upto(distances@, self.edges@, self.edges@.len() as int),
                !settled ==> covered(g, origin as int, distances@, round as int),
            decreases total - round,
        {
            let mut is_distance_updated = false;
            let mut at: usize = 0;
            proof {
                assert((round + 1) * span == round * span + span) by (nonlinear_arith);
                assert((round + 1) * span <= n * span) by (nonlinear_arith)
                    requires
                        round + 1 <= n,
                        0 <= span,
                ;
            }
            while at < self.edges.len()
                invariant
                    g == self.arcs(),
                    span == self.span(),
                    cap == self.cap(),
                    0 <= span,
                    0 <= cap,
                    total == self.total_vertices,
                    n == total,
                    self.well_formed(),
                    within(g, n),
                    calm ==> no_negative_cycle_from(g, origin as int) && n * cap < i32::MAX && low == -((
                    n - 1) * cap) && high == (reached_upto(distances@, n) - 1) * cap,
                    !calm ==> round * span + span < i32::MAX && high == round * span + span_upto(
                        self.edges@,
                        at as int,
                    ) && low == -high,
                    0 <= origin < total,
                    distances@.len() == total,
                    0 <= at <= self.edges@.len(),
                    distances@[origin as int] <= 0,
                    walked(g, origin as int, distances@),
                    fenced(distances@, low, high),
                    covered(g, origin as int, distances@, round as int),
                    covered_via(g, origin as int, distances@, round + 1, self.edges@, at as int),
                    !is_distance_updated ==> relaxed_upto(distances@, self.edges@, at as int),
                decreases self.edges.len() - at,
            {
                let edge = &self.edges[at];
                let ghost before = distances@;
                proof {
                    lemma_span_grows(self.edges@, at as int, self.edges@.len() as int);
                    lemma_heaviest_caps(self.edges@, self.edges@.len() as int, at as int);
                    assert(g.contains(arc_of(*edge)));
                    if calm && before[edge.source as int] != i32::MAX {
                        lemma_reached_update(before, edge.destination as int, 0, n);
                        assert(high + cap <= n * cap) by (nonlinear_arith)
                            requires
                                high == (reached_upto(before, n) - 1) * cap,
                                reached_upto(before, n) <= n,
                                0 <= cap,
                        ;
                        assert(low - cap == -(n * cap)) by (nonlinear_arith)
                            requires
                                low == -((n - 1) * cap),
                        ;
                    }
                }
                if distances[edge.source] != i32::MAX {
                    let new_distance = distances[edge.source] + edge.weight;

                    if new_distance < distances[edge.destination] {
                        distances.set(edge.destination, new_distance);
                        is_distance_updated = true;
                        proof {
                            let p = choose|p: Seq<Arc>|
                                is_walk(g, p, origin as int, edge.source as int) && walk_weight(p)
                                    == before[edge.source as int];
                            lemma_walk_push(g, p, origin as int, arc_of(*edge));
                            assert forall|x: int|
                                0 <= x < distances@.len() && #[trigger] distances@[x]
                                    != i32::MAX implies exists|p: Seq<Arc>|
                                is_walk(g, p, origin as int, x) && walk_weight(p) == distances@[x] by {
                                if x == edge.destination {
                                    assert(is_walk(g, p.push(arc_of(*edge)), origin as int, x));
                                } else {
                                    assert(before[x] != i32::MAX);
                                }
                            }
                            if calm {
                                self.lemma_walk_floor(
                                    origin as int,
                                    p.push(arc_of(*edge)),
                                    edge.destination as int,
                                );
                                lemma_reached_update(
                                    before,
                                    edge.destination as int,
                                    new_distance,
                                    n,
                                );
                                assert(distances@ == before.update(
                                    edge.destination as int,
                                    new_distance,
                                ));
                                if before[edge.destination as int] == i32::MAX {
                                    assert((reached_upto(before, n) + 1 - 1) * cap == (reached_upto(
                                        before,
                                        n,
                                    ) - 1) * cap + cap) by (nonlinear_arith);
                                    high = high + cap;
                                }
                            }
                        }
                    }
                }
                proof {
                    if !calm {
                        low = low - magnitude(edge.weight as int);
                        high = high + magnitude(edge.weight as int);
                    }
                    assert forall|x: int| 0 <= x < before.len() implies distances@[x] <= before[x] by {}
                    assert forall|p: Seq<Arc>, x: int, i: int|
                        0 <= x < distances@.len() && #[trigger] is_walk(g, p, origin as int, x) && 0
                            < p.len() <= round + 1 && 0 <= i < at + 1 && arc_of(
                            #[trigger] self.edges@[i],
                        ) == p.last() implies distances@[x] != i32::MAX && distances@[x]
                        <= walk_weight(p) by {
                        if i < at {
                            assert(before[x] != i32::MAX && before[x] <= walk_weight(p));
                        } else {
                            lemma_walk_drop_last(g, p, origin as int, x);
                            assert(is_walk(g, p.drop_last(), origin as int, edge.source as int));
                            assert(before[edge.source as int] <= walk_weight(p.drop_last()));
                        }
                    }
                    assert forall|q: Seq<Arc>, x: int|
                        0 <= x < distances@.len() && #[trigger] is_walk(g, q, origin as int, x)
                            && q.len() <= round implies distances@[x] != i32::MAX && distances@[x]
                        <= walk_weight(q) by {
                        assert(before[x] != i32::MAX && before[x] <= walk_weight(q));
                    }
                    if !is_distance_updated {
                        assert forall|i: int| 0 <= i < at + 1 implies relaxed(
                            distances@,
                            #[trigger] self.edges@[i],
                        ) by {}
                    }
                }
                at += 1;
            }
            proof {
                assert forall|p: Seq<Arc>, x: int|
                    0 <= x < distances@.len() && #[trigger] is_walk(g, p, origin as int, x) && p.len()
                        <= round + 1 implies distances@[x] != i32::MAX && distances@[x]
                    <= walk_weight(p) by {
                    if p.len() > round {
                        assert(g.contains(p.last()));
                        let i = choose|i: int|
                            0 <= i < self.edges@.len() && arc_of(#[trigger] self.edges@[i])
                                == p.last();
                        assert(arc_of(self.edges@[i]) == p.last());
                    }
                }
            }

            if !is_distance_updated {
                settled = true;
            }
            round += 1;
        }

        let mut at: usize = 0;
        proof {
            assert(round * span + span <= n * span) by (nonlinear_arith)
                requires
                    round + 1 <= n,
                    0 <= span,
            ;
            if calm {
                lemma_reached_update(distances@, origin as int, 0, n);
                assert(high + cap <= n * cap) by (nonlinear_arith)
                    requires
                        high == (reached_upto(distances@, n) - 1) * cap,
                        reached_upto(distances@, n) <= n,
                        0 <= cap,
                ;
                assert(low - cap == -(n * cap)) by (nonlinear_arith)
                    requires
                        low == -((n - 1) * cap),
                ;
            }
            assert forall|x: int, i: int|
                0 <= x < distances@.len() && #[trigger] distances@[x] != i32::MAX && 0 <= i
                    < self.edges@.len() implies i32::MIN < distances@[x] + (
                #[trigger] self.edges@[i]).weight < i32::MAX by {
                lemma_span_grows(self.edges@, i, self.edges@.len() as int);
                lemma_heaviest_caps(self.edges@, self.edges@.len() as int, i);
            }
        }
        while at < self.edges.len()
            invariant
                g == self.arcs(),
                total == self.total_vertices,
                n == total,
                self.well_formed(),
                0 <= origin < total,
                start == Some(first),
                origin == first,
                within(g, n),
                distances@.len() == total,
                0 <= at <= self.edges@.len(),
                distances@[origin as int] <= 0,
                walked(g, origin as int, distances@),
                headroom(distances@, self.edges@),
                forall|x: int, i: int|
                    0 <= x < distances@.len() && #[trigger] distances@[x] != i32::MAX && 0 <= i
                        < self.edges@.len() ==> i32::MIN < distances@[x] + (
                    #[trigger] self.edges@[i]).weight,
                settled ==> relaxed_upto(distances@, self.edges@, self.edges@.len() as int),
                !settled ==> round == total - 1 && covered(g, origin as int, distances@, round as int),
                relaxed_upto(distances@, self.edges@, at as int),
            decreases self.edges.len() - at,
        {
            let edge = &self.edges[at];
            if distances[edge.source] != i32::MAX {
                let new_distance = distances[edge.source] + edge.weight;

                if new_distance < distances[edge.destination] {
                    proof {
                        assert(!relaxed(distances@, self.edges@[at as int]));
                        assert(!settled);
                        if !negative_cycle_from(g, origin as int) {
                            assert(no_negative_cycle_from(g, origin as int));
                            let e = arc_of(*edge);
                            assert(g.contains(e));
                            let p = choose|p: Seq<Arc>|
                                is_walk(g, p, origin as int, edge.source as int) && walk_weight(p)
                                    == distances@[edge.source as int];
                            lemma_walk_push(g, p, origin as int, e);
                            let q = lemma_shortcut(
                                g,
                                n,
                                p.push(e),
                                origin as int,
                                edge.destination as int,
                            );
                            assert(is_walk(g, q, origin as int, edge.destination as int));
                            assert(distances@[edge.destination as int] <= walk_weight(q));
                            assert(false);
                        }
                    }
                    return Err(GraphError::NegativeWeightCycle);
                }
            }
            at += 1;
        }

        proof {
            let d = distances@;
            assert forall|p: Seq<Arc>, b: int| #[trigger] is_walk(g, p, origin as int, b) implies 0 <= b
                < d.len() && d[b] != i32::MAX && d[b] <= d[origin as int] + walk_weight(p) by {
                self.lemma_relaxed_along(d, p, origin as int, b);
            }
            assert forall|x: int, r: Seq<Arc>, c: Seq<Arc>|
                is_walk(g, r, origin as int, x) && is_walk(g, c, x, x) implies walk_weight(c) >= 0 by {
                self.lemma_relaxed_along(d, c, x, x);
            }
            let zero = choose|p: Seq<Arc>|
                is_walk(g, p, origin as int, origin as int) && walk_weight(p) == d[origin as int];
            assert(d[origin as int] <= d[origin as int] + walk_weight(zero));
            assert(d[origin as int] == 0);
            assert forall|v: int| 0 <= v < d.len() implies self.is_distance(
                origin as int,
                v,
                #[trigger] d[v],
            ) by {
                if d[v] != i32::MAX {
                    let p = choose|p: Seq<Arc>| is_walk(g, p, origin as int, v) && walk_weight(p) == d[v];
                    assert(is_walk(g, p, origin as int, v) && walk_weight(p) == d[v]);
                }
            }
        }
        Ok(distances)
    }
}

} // verus!
