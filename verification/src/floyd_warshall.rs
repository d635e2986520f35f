//! The Floyd-Warshall algorithm: shortest distances between all pairs of nodes.

use crate::paths::{
    capped, inner_below, is_least_weight, is_walk, lemma_concat_inner, lemma_cycles_carry,
    lemma_shortcut, lemma_through, lemma_walk_concat, lemma_weight_capped, no_negative_cycle,
    no_negative_cycle_from, reachable, walk_weight, within, Arc,
};
use crate::{GraphAlgorithm, GraphError};
use vstd::prelude::*;

verus! {

/// Floyd-Warshall Algorithm.
/// Compute shortest paths between all pairs of vertices in a weighted graph.
#[derive(Debug, Clone)]
pub struct FloydWarshallAlgorithm {
    /// Total number of nodes in the graph.
    pub total_nodes: usize,
    /// Edges in the graph.
    pub edges: Vec<(usize, usize, i32)>,
}

/// The larger of two numbers.
pub open spec fn larger(a: int, b: int) -> int {
    if a < b {
        b
    } else {
        a
    }
}

/// The edges that `nodes` list, each source with its targets, in order.
pub open spec fn spread(nodes: Seq<(usize, Vec<(usize, i32)>)>) -> Seq<(usize, usize, i32)>
    decreases nodes.len(),
{
    if nodes.len() == 0 {
        Seq::empty()
    } else {
        spread(nodes.drop_last()) + Seq::new(
            nodes.last().1@.len(),
            |i: int| (nodes.last().0, nodes.last().1@[i].0, nodes.last().1@[i].1),
        )
    }
}

/// The least count that is no less than `base` and lies above both ends of each
/// of the first `n` of `edges`.
pub open spec fn raised(base: int, edges: Seq<(usize, usize, i32)>, n: int) -> int
    decreases n,
{
    if n <= 0 {
        base
    } else {
        larger(larger(raised(base, edges, n - 1), edges[n - 1].0 + 1), edges[n - 1].1 + 1)
    }
}

/// The weight of the last of the first `n` of `edges` that leads from `u` to `v`.
pub open spec fn last_between(edges: Seq<(usize, usize, i32)>, n: int, u: int, v: int) -> Option<
    i32,
>
    decreases n,
{
    if n <= 0 {
        None
    } else if edges[n - 1].0 == u && edges[n - 1].1 == v {
        Some(edges[n - 1].2)
    } else {
        last_between(edges, n - 1, u, v)
    }
}

/// The largest size of a weight among the first `n` of `edges`.
pub open spec fn heaviest(edges: Seq<(usize, usize, i32)>, n: int) -> int
    decreases n,
{
    if n <= 0 {
        0
    } else {
        larger(
            heaviest(edges, n - 1),
            if edges[n - 1].2 < 0 {
                -edges[n - 1].2
            } else {
                edges[n - 1].2 as int
            },
        )
    }
}

/// Appending edges raises the count as raising it for the first part and then
/// for the rest does.
pub proof fn lemma_raised_append(
    base: int,
    head: Seq<(usize, usize, i32)>,
    tail: Seq<(usize, usize, i32)>,
    n: int,
)
    requires
        0 <= n <= tail.len(),
    ensures
        raised(base, head + tail, head.len() + n) == raised(
            raised(base, head, head.len() as int),
            tail,
            n,
        ),
    decreases n,
{
    let all = head + tail;
    if n > 0 {
        lemma_raised_append(base, head, tail, n - 1);
        assert(all[head.len() + n - 1] == tail[n - 1]);
    } else {
        lemma_raised_prefix(base, all, head, head.len() as int);
    }
}

/// Raising a count looks only at the edges it is raised for.
pub proof fn lemma_raised_prefix(
    base: int,
    a: Seq<(usize, usize, i32)>,
    b: Seq<(usize, usize, i32)>,
    n: int,
)
    requires
        0 <= n <= a.len(),
        n <= b.len(),
        forall|i: int| 0 <= i < n ==> a[i] == b[i],
    ensures
        raised(base, a, n) == raised(base, b, n),
    decreases n,
{
    if n > 0 {
        lemma_raised_prefix(base, a, b, n - 1);
    }
}

impl FloydWarshallAlgorithm {
    /// Every edge joins two of the graph's nodes.
    pub open spec fn well_formed(&self) -> bool {
        forall|i: int|
            0 <= i < self.edges@.len() ==> (#[trigger] self.edges@[i]).0 < self.total_nodes
                && self.edges@[i].1 < self.total_nodes
    }

    /// Create a new instance of Floyd-Warshall Algorithm.
    pub fn new() -> (engine: Self)
        ensures
            engine.total_nodes == 0,
            engine.edges@ == Seq::<(usize, usize, i32)>::empty(),
            engine.well_formed(),
    {
        Self { total_nodes: 0, edges: Vec::new() }
    }

    /// Set a single edge to the graph, and raise the number of nodes to cover
    /// its two ends.
    pub fn set_edge(&mut self, source: usize, target: usize, weight: i32)
        requires
            source < usize::MAX,
            target < usize::MAX,
        ensures
            final(self).edges@ == old(self).edges@.push((source, target, weight)),
            final(self).total_nodes == larger(
                larger(old(self).total_nodes as int, source + 1),
                target + 1,
            ),
            old(self).well_formed() ==> final(self).well_formed(),
    {
        let ghost before = self.edges@;
        self.edges.push((source, target, weight));
        if self.total_nodes < source + 1 {
            self.total_nodes = source + 1;
        }
        if self.total_nodes < target + 1 {
            self.total_nodes = target + 1;
        }
        proof {
            if old(self).well_formed() {
                assert forall|i: int| 0 <= i < self.edges@.len() implies (
                #[trigger] self.edges@[i]).0 < self.total_nodes && self.edges@[i].1
                    < self.total_nodes by {
                    if i < before.len() {
                        assert(self.edges@[i] == before[i]);
                    }
                }
            }
        }
    }

    /// Set multiple nodes' edges to the graph: for each node in order, one edge
    /// to each of its targets. A node without targets adds nothing.
    pub fn set_edges(&mut self, nodes: Vec<(usize, Vec<(usize, i32)>)>)
        requires
            forall|i: int| 0 <= i < spread(nodes@).len() ==> (#[trigger] spread(nodes@)[i]).0
                < usize::MAX && spread(nodes@)[i].1 < usize::MAX,
        ensures
            final(self).edges@ == old(self).edges@ + spread(nodes@),
            final(self).total_nodes == raised(
                old(self).total_nodes as int,
                spread(nodes@),
                spread(nodes@).len() as int,
            ),
            old(self).well_formed() ==> final(self).well_formed(),
    {
        let ghost base = self.total_nodes as int;
        let ghost all = nodes@;
        proof {
            assert(self.edges@ =~= old(self).edges@ + spread(all.subrange(0, 0)));
        }
        for (source, edges) in it: nodes
            invariant
                it.seq() == all,
                forall|i: int| 0 <= i < spread(all).len() ==> (#[trigger] spread(all)[i]).0 < usize::MAX
                    && spread(all)[i].1 < usize::MAX,
                self.edges@ == old(self).edges@ + spread(all.subrange(0, it.index() as int)),
                self.total_nodes == raised(
                    base,
                    spread(all.subrange(0, it.index() as int)),
                    spread(all.subrange(0, it.index() as int)).len() as int,
                ),
                old(self).well_formed() ==> self.well_formed(),
        {
            let ghost at = it.index() as int;
            let ghost targets = edges@;
            let ghost seen = spread(all.subrange(0, at));
            let ghost fan = Seq::new(
                targets.len(),
                |i: int| (source, targets[i].0, targets[i].1),
            );
            proof {
                assert(all[at] == (source, edges));
                assert(all.subrange(0, at + 1).drop_last() =~= all.subrange(0, at));
                assert(all.subrange(0, at + 1).last() == all[at]);
                assert(spread(all.subrange(0, at + 1)) == seen + fan);
                Self::lemma_spread_prefix(all, at + 1);
                assert(self.edges@ =~= old(self).edges@ + seen + fan.subrange(0, 0));
                lemma_raised_append(base, seen, fan.subrange(0, 0), 0);
                assert forall|i: int| 0 <= i < fan.len() implies (#[trigger] fan[i]).0 < usize::MAX
                    && fan[i].1 < usize::MAX by {
                    assert(spread(all.subrange(0, at + 1))[seen.len() + i] == fan[i]);
                    assert(spread(all)[seen.len() + i] == fan[i]);
                }
            }
            for (target, weight) in jt: edges
                invariant
                    jt.seq() == targets,
                    fan.len() == targets.len(),
                    forall|i: int|
                        0 <= i < fan.len() ==> #[trigger] fan[i] == (source, targets[i].0, targets[i].1),
                    forall|i: int| 0 <= i < fan.len() ==> (#[trigger] fan[i]).0 < usize::MAX && fan[i].1
                        < usize::MAX,
                    self.edges@ == old(self).edges@ + seen + fan.subrange(0, jt.index() as int),
                    self.total_nodes == raised(
                        raised(base, seen, seen.len() as int),
                        fan.subrange(0, jt.index() as int),
                        jt.index() as int,
                    ),
                    old(self).well_formed() ==> self.well_formed(),
            {
                let ghost to = jt.index() as int;
                assert(targets[to] == (target, weight));
                assert(fan[to] == (source, target, weight));
                self.set_edge(source, target, weight);
                proof {
                    let part = fan.subrange(0, to + 1);
                    assert(part.drop_last() =~= fan.subrange(0, to));
                    assert(self.edges@ =~= old(self).edges@ + seen + part);
                    lemma_raised_prefix(
                        raised(base, seen, seen.len() as int),
                        part,
                        fan.subrange(0, to),
                        to,
                    );
                }
            }
            proof {
                assert(fan.subrange(0, fan.len() as int) =~= fan);
                lemma_raised_append(base, seen, fan, fan.len() as int);
                assert(old(self).edges@ + seen + fan =~= old(self).edges@ + (seen + fan));
            }
        }
        proof {
            assert(all.subrange(0, all.len() as int) =~= all);
        }
    }

    /// The edges listed by the first `n` nodes are the first of all the edges listed.
    pub proof fn lemma_spread_prefix(nodes: Seq<(usize, Vec<(usize, i32)>)>, n: int)
        requires
            0 <= n <= nodes.len(),
        ensures
            spread(nodes.subrange(0, n)).len() <= spread(nodes).len(),
            forall|i: int|
                0 <= i < spread(nodes.subrange(0, n)).len() ==> #[trigger] spread(
                    nodes.subrange(0, n),
                )[i] == spread(nodes)[i],
        decreases nodes.len() - n,
    {
        if n < nodes.len() {
            Self::lemma_spread_prefix(nodes, n + 1);
            let more = nodes.subrange(0, n + 1);
            assert(more.drop_last() =~= nodes.subrange(0, n));
            assert forall|i: int| 0 <= i < spread(nodes.subrange(0, n)).len() implies #[trigger] spread(
                nodes.subrange(0, n),
            )[i] == spread(nodes)[i] by {
                assert(spread(more)[i] == spread(nodes.subrange(0, n))[i]);
            }
        } else {
            assert(nodes.subrange(0, n) =~= nodes);
        }
    }

    /// Set the total number of nodes in the graph; the number is only ever raised.
    pub fn set_total_nodes(&mut self, total: usize)
        ensures
            final(self).total_nodes == larger(old(self).total_nodes as int, total as int),
            final(self).edges@ == old(self).edges@,
            old(self).well_formed() ==> final(self).well_formed(),
    {
        if self.total_nodes < total {
            self.total_nodes = total;
        }
    }
}

/// `val`, where it is not the sentinel, is the weight of a walk from `i` to `j`
/// that passes only through nodes below `level`.
pub open spec fn sound_v(g: Set<Arc>, i: int, j: int, level: int, val: i32) -> bool {
    val != i32::MAX ==> exists|p: Seq<Arc>|
        is_walk(g, p, i, j) && walk_weight(p) == val && inner_below(p, level)
}

/// Where no negative cycle is reached from `i`: no walk from `i` to `j` that
/// passes only through nodes below `level` undercuts `val`, and if there is such
/// a walk, `val` is not the sentinel.
pub open spec fn complete_v(g: Set<Arc>, i: int, j: int, level: int, val: i32) -> bool {
    no_negative_cycle_from(g, i) ==> forall|p: Seq<Arc>|
        is_walk(g, p, i, j) && inner_below(p, level) ==> val != i32::MAX && val <= walk_weight(p)
}

/// `val` is the distance from `i` to `j` by way of the nodes below `level`.
#[verifier::opaque]
pub open spec fn exact_v(g: Set<Arc>, i: int, j: int, level: int, val: i32) -> bool {
    sound_v(g, i, j, level, val) && complete_v(g, i, j, level, val)
}

/// The matrix has `n` rows of `n` entries.
pub open spec fn square(m: Seq<Vec<i32>>, n: int) -> bool {
    m.len() == n && forall|i: int| 0 <= i < n ==> (#[trigger] m[i])@.len() == n
}

/// What relaxing a cell by way of an intermediate node leaves in it: the sum of
/// the two legs where both are there and the sum is less, else what was there.
pub open spec fn relax(x: i32, y: i32, was: i32) -> int {
    if x != i32::MAX && y != i32::MAX && x + y < was {
        x + y
    } else {
        was as int
    }
}

/// The cell started with: the weight of the last of the first `n` edges from
/// `u` to `v`, or the sentinel where there is none.
pub open spec fn stamped(edges: Seq<(usize, usize, i32)>, n: int, u: int, v: int) -> i32 {
    match last_between(edges, n, u, v) {
        Some(w) => w,
        None => i32::MAX,
    }
}

/// The last edge between two nodes is one of the edges.
pub proof fn lemma_last_is_listed(edges: Seq<(usize, usize, i32)>, n: int, u: int, v: int) -> (at: int)
    requires
        n <= edges.len(),
        last_between(edges, n, u, v) is Some,
    ensures
        0 <= at < n,
        edges[at].0 == u,
        edges[at].1 == v,
        last_between(edges, n, u, v) == Some(edges[at].2),
    decreases n,
{
    if edges[n - 1].0 == u && edges[n - 1].1 == v {
        n - 1
    } else {
        lemma_last_is_listed(edges, n - 1, u, v)
    }
}

/// No weight among the first `n` edges is larger in size than the heaviest.
pub proof fn lemma_heaviest_caps(edges: Seq<(usize, usize, i32)>, n: int, at: int)
    requires
        0 <= at < n,
    ensures
        0 <= heaviest(edges, n),
        -heaviest(edges, n) <= edges[at].2 <= heaviest(edges, n),
    decreases n,
{
    if at < n - 1 {
        lemma_heaviest_caps(edges, n - 1, at);
    } else if n > 1 {
        lemma_heaviest_caps(edges, n - 1, 0);
    }
}

/// A distance by way of fewer nodes is the weight of a walk by way of more.
pub proof fn lemma_level_up(g: Set<Arc>, i: int, j: int, level: int, val: i32)
    requires
        sound_v(g, i, j, level, val),
    ensures
        sound_v(g, i, j, level + 1, val),
{
    if val != i32::MAX {
        let p = choose|p: Seq<Arc>| is_walk(g, p, i, j) && walk_weight(p) == val && inner_below(p, level);
        assert(inner_below(p, level + 1));
    }
}

/// A distance by way of some nodes, between nodes of a graph without negative
/// cycles reached from the first, is no larger in size than the weights of one
/// edge less than there are nodes can be.
pub proof fn lemma_value_bounded(g: Set<Arc>, n: int, cap: int, i: int, j: int, level: int, val: i32)
    requires
        within(g, n),
        capped(g, cap),
        0 <= cap,
        no_negative_cycle_from(g, i),
        0 <= i < n,
        exact_v(g, i, j, level, val),
        val != i32::MAX,
    ensures
        -((n - 1) * cap) <= val <= (n - 1) * cap,
{
    reveal(exact_v);
    let p = choose|p: Seq<Arc>| is_walk(g, p, i, j) && walk_weight(p) == val && inner_below(p, level);
    let q = lemma_shortcut(g, n, p, i, j);
    assert(inner_below(q, level));
    assert(val <= walk_weight(q));
    lemma_weight_capped(g, q, i, j, cap);
    assert(q.len() * cap <= (n - 1) * cap) by (nonlinear_arith)
        requires
            q.len() <= n - 1,
            0 <= cap,
    ;
}

/// Relaxing a cell by way of node `k` turns its distance by way of the nodes
/// below `k` into its distance by way of the nodes up to `k`. The two legs may
/// already have been relaxed in the same round: each is the weight of a walk by
/// way of nodes up to `k` and no more than the leg's distance by way of the
/// nodes below `k`.
pub proof fn lemma_relax_cell(
    g: Set<Arc>,
    k: int,
    i: int,
    j: int,
    x: i32,
    x_before: i32,
    y: i32,
    y_before: i32,
    was: i32,
    bound: int,
)
    requires
        sound_v(g, i, k, k + 1, x),
        x <= x_before,
        complete_v(g, i, k, k, x_before),
        sound_v(g, k, j, k + 1, y),
        y <= y_before,
        complete_v(g, k, j, k, y_before),
        exact_v(g, i, j, k, was),
        x != i32::MAX ==> -bound <= x <= bound,
        y != i32::MAX ==> -bound <= y <= bound,
        2 * bound < i32::MAX,
    ensures
        i32::MIN <= relax(x, y, was) <= was,
        exact_v(g, i, j, k + 1, relax(x, y, was) as i32),
{
    reveal(exact_v);
    let new = relax(x, y, was) as i32;
    assert(sound_v(g, i, j, k + 1, new)) by {
        if new != i32::MAX {
            if new == was {
                lemma_level_up(g, i, j, k, was);
            } else {
                let px = choose|p: Seq<Arc>|
                    is_walk(g, p, i, k) && walk_weight(p) == x && inner_below(p, k + 1);
                let py = choose|p: Seq<Arc>|
                    is_walk(g, p, k, j) && walk_weight(p) == y && inner_below(p, k + 1);
                lemma_walk_concat(g, px, py, i, k, j);
                lemma_concat_inner(px, py, k + 1);
                assert(is_walk(g, px + py, i, j) && walk_weight(px + py) == new && inner_below(
                    px + py,
                    k + 1,
                ));
            }
        }
    }
    assert(complete_v(g, i, j, k + 1, new)) by {
        if no_negative_cycle_from(g, i) {
            assert forall|p: Seq<Arc>| is_walk(g, p, i, j) && inner_below(p, k + 1) implies new
                != i32::MAX && new <= walk_weight(p) by {
                if inner_below(p, k) {
                    assert(was != i32::MAX && was <= walk_weight(p));
                } else {
                    let halves = lemma_through(g, p, i, j, k);
                    lemma_cycles_carry(g, i, k, halves.0);
                    assert(x_before != i32::MAX && x_before <= walk_weight(halves.0));
                    assert(y_before != i32::MAX && y_before <= walk_weight(halves.1));
                }
            }
        }
    }
}

impl FloydWarshallAlgorithm {
    /// The weight of the edge from `u` to `v` that counts: the last one given.
    pub open spec fn direct(&self, u: int, v: int) -> Option<i32> {
        last_between(self.edges@, self.edges@.len() as int, u, v)
    }

    /// The edges that count in a run: for each two distinct nodes the last
    /// edge given from the one to the other, unless its weight is the sentinel.
    pub open spec fn arcs(&self) -> Set<Arc> {
        Set::new(
            |a: Arc|
                a.0 != a.1 && match self.direct(a.0, a.1) {
                    Some(w) => w != i32::MAX && a.2 == w,
                    None => false,
                },
        )
    }

    /// The largest size of a weight in the graph.
    pub open spec fn cap(&self) -> int {
        heaviest(self.edges@, self.edges@.len() as int)
    }

    /// The distance that a run reports from `i` to `j`: the sentinel where no
    /// walk leads from `i` to `j`, else the least weight of such a walk.
    pub open spec fn is_distance(&self, i: int, j: int, d: i32) -> bool {
        if d == i32::MAX {
            !reachable(self.arcs(), i, j)
        } else {
            is_least_weight(self.arcs(), i, j, d as int)
        }
    }

    /// The edges that count join nodes of the graph and weigh no more than the heaviest.
    pub proof fn lemma_arcs_shape(&self)
        requires
            self.well_formed(),
        ensures
            within(self.arcs(), self.total_nodes as int),
            capped(self.arcs(), self.cap()),
            0 <= self.cap(),
    {
        let n = self.edges@.len() as int;
        assert forall|a: Arc| #[trigger] self.arcs().contains(a) implies 0 <= a.0 < self.total_nodes
            && 0 <= a.1 < self.total_nodes && -self.cap() <= a.2 <= self.cap() by {
            let at = lemma_last_is_listed(self.edges@, n, a.0, a.1);
            lemma_heaviest_caps(self.edges@, n, at);
        }
        if n > 0 {
            lemma_heaviest_caps(self.edges@, n, 0);
        }
    }

    /// What the cells start with are the distances by way of no node at all.
    pub proof fn lemma_first_stage(&self, i: int, j: int)
        requires
            self.well_formed(),
            0 <= i < self.total_nodes,
            0 <= j < self.total_nodes,
        ensures
            exact_v(
                self.arcs(),
                i,
                j,
                0,
                if i == j {
                    0i32
                } else {
                    stamped(self.edges@, self.edges@.len() as int, i, j)
                },
            ),
    {
        reveal(exact_v);
        self.lemma_arcs_shape();
        let g = self.arcs();
        let val = if i == j {
            0i32
        } else {
            stamped(self.edges@, self.edges@.len() as int, i, j)
        };
        assert(sound_v(g, i, j, 0, val)) by {
            if val != i32::MAX {
                if i == j {
                    let p = Seq::<Arc>::empty();
                    assert(is_walk(g, p, i, j) && walk_weight(p) == val && inner_below(p, 0));
                } else {
                    let a: Arc = (i, j, val as int);
                    assert(g.contains(a));
                    let p = seq![a];
                    assert(p.drop_last() =~= Seq::<Arc>::empty());
                    assert(walk_weight(p.drop_last()) == 0);
                    assert(is_walk(g, p, i, j) && walk_weight(p) == val && inner_below(p, 0));
                }
            }
        }
        assert(complete_v(g, i, j, 0, val)) by {
            assert forall|p: Seq<Arc>| is_walk(g, p, i, j) && inner_below(p, 0) implies val
                != i32::MAX && val <= walk_weight(p) by {
                if p.len() >= 2 {
                    assert(g.contains(p[1]));
                    assert(p[1].0 < 0);
                } else if p.len() == 1 {
                    assert(g.contains(p[0]));
                    assert(p.drop_last() =~= Seq::<Arc>::empty());
                    assert(walk_weight(p.drop_last()) == 0);
                }
            }
        }
    }

    /// The distances by way of all nodes are the distances.
    pub proof fn lemma_last_stage(&self, i: int, j: int, val: i32)
        requires
            self.well_formed(),
            exact_v(self.arcs(), i, j, self.total_nodes as int, val),
        ensures
            val != i32::MAX ==> exists|p: Seq<Arc>| is_walk(self.arcs(), p, i, j) && walk_weight(p) == val,
            no_negative_cycle_from(self.arcs(), i) ==> self.is_distance(i, j, val),
    {
        reveal(exact_v);
        self.lemma_arcs_shape();
        let g = self.arcs();
        assert forall|p: Seq<Arc>| is_walk(g, p, i, j) implies inner_below(
            p,
            self.total_nodes as int,
        ) by {
            assert forall|t: int| 0 < t < p.len() implies (#[trigger] p[t]).0 < self.total_nodes by {
                assert(g.contains(p[t]));
            }
        }
        if val != i32::MAX {
            let p = choose|p: Seq<Arc>|
                is_walk(g, p, i, j) && walk_weight(p) == val && inner_below(
                    p,
                    self.total_nodes as int,
                );
            assert(is_walk(g, p, i, j) && walk_weight(p) == val);
        }
        if no_negative_cycle_from(g, i) {
            assert forall|p: Seq<Arc>| is_walk(g, p, i, j) implies val != i32::MAX && val
                <= walk_weight(p) by {
                assert(inner_below(p, self.total_nodes as int));
            }
        }
    }
}

/// The matrix after the cell in row `i` and column `j` is relaxed by way of node `k`.
pub open spec fn relax_at(m: Seq<Seq<i32>>, k: int, i: int, j: int) -> Seq<Seq<i32>> {
    m.update(i, m[i].update(j, relax(m[i][k], m[k][j], m[i][j]) as i32))
}

/// The matrix after the first `upto` cells of row `i` are relaxed by way of node `k`, in order.
pub open spec fn swept_row(m: Seq<Seq<i32>>, k: int, i: int, upto: int) -> Seq<Seq<i32>>
    decreases upto,
{
    if upto <= 0 {
        m
    } else {
        relax_at(swept_row(m, k, i, upto - 1), k, i, upto - 1)
    }
}

/// The matrix of `n` columns after its first `rows` rows are relaxed by way of
/// node `k`, row by row.
pub open spec fn swept(m: Seq<Seq<i32>>, n: int, k: int, rows: int) -> Seq<Seq<i32>>
    decreases rows,
{
    if rows <= 0 {
        m
    } else {
        swept_row(swept(m, n, k, rows - 1), k, rows - 1, n)
    }
}

/// Six to the power `k`: by how much a round by way of one node can multiply
/// the size of the entries where a negative cycle feeds them.
pub open spec fn sixfold(k: int) -> int
    decreases k,
{
    if k <= 0 {
        1
    } else {
        6 * sixfold(k - 1)
    }
}

/// The powers of six grow.
pub proof fn lemma_sixfold_grows(a: int, b: int)
    requires
        a <= b,
    ensures
        1 <= sixfold(a) <= sixfold(b),
    decreases b - a,
{
    if a < b {
        lemma_sixfold_grows(a + 1, b);
        lemma_sixfold_positive(a);
    } else {
        lemma_sixfold_positive(a);
    }
}

/// A power of six is at least one.
pub proof fn lemma_sixfold_positive(a: int)
    ensures
        1 <= sixfold(a),
    decreases a,
{
    if a > 0 {
        lemma_sixfold_positive(a - 1);
    }
}

/// The cells of `m` are those of `target`, a matrix of `n` rows and columns.
pub open spec fn tracks(m: Seq<Vec<i32>>, target: Seq<Seq<i32>>, n: int) -> bool {
    &&& target.len() == n
    &&& forall|a: int| 0 <= a < n ==> (#[trigger] target[a]).len() == n
    &&& forall|a: int, b: int| 0 <= a < n && 0 <= b < n ==> (#[trigger] m[a]@[b]) == target[a][b]
}

/// Each entry of `m` that is not the sentinel is within `room` of zero.
pub open spec fn bounded_by(m: Seq<Vec<i32>>, n: int, room: int) -> bool {
    forall|a: int, b: int|
        0 <= a < n && 0 <= b < n && (#[trigger] m[a]@[b]) != i32::MAX ==> -room <= m[a]@[b] <= room
}

/// How far the entries may have moved in the round by way of node `k`, where
/// each was within `room` of zero when the round began: the entry of `k` and
/// `k` at most doubles, the others in row `k` and column `k` gain at most that,
/// and any other entry is at most the sum of two of those.
pub open spec fn roomy(m: Seq<Vec<i32>>, n: int, k: int, room: int) -> bool {
    &&& forall|a: int, b: int|
        0 <= a < n && 0 <= b < n && (#[trigger] m[a]@[b]) != i32::MAX ==> -6 * room <= m[a]@[b] <= 2
            * room
    &&& forall|a: int| 0 <= a < n && (#[trigger] m[a])@[k] != i32::MAX ==> -3 * room <= m[a]@[k] <= room
    &&& forall|b: int| 0 <= b < n && (#[trigger] m[k]@[b]) != i32::MAX ==> -3 * room <= m[k]@[b] <= room
    &&& m[k]@[k] != i32::MAX ==> -2 * room <= m[k]@[k]
}

/// Where a round by way of node `k` stands before it relaxes the cell in row
/// `i` and column `j`: the cells before that one hold distances by way of the
/// nodes up to `k` and have not grown, the others are as the round found them,
/// and the round found distances by way of the nodes below `k`.
pub open spec fn mid_round(
    g: Set<Arc>,
    n: int,
    k: int,
    i: int,
    j: int,
    m: Seq<Vec<i32>>,
    base: Seq<Vec<i32>>,
) -> bool {
    &&& square(m, n)
    &&& square(base, n)
    &&& forall|a: int| 0 <= a < n ==> (#[trigger] m[a])@[a] <= 0
    &&& forall|a: int, b: int| 0 <= a < n && 0 <= b < n ==> exact_v(g, a, b, k, #[trigger] base[a]@[b])
    &&& forall|a: int, b: int|
        0 <= a < n && 0 <= b < n && (a < i || (a == i && b < j)) ==> exact_v(
            g,
            a,
            b,
            k + 1,
            #[trigger] m[a]@[b],
        ) && m[a]@[b] <= base[a]@[b]
    &&& forall|a: int, b: int|
        0 <= a < n && 0 <= b < n && !(a < i || (a == i && b < j)) ==> (#[trigger] m[a]@[b])
            == base[a]@[b]
}

impl FloydWarshallAlgorithm {
    /// The matrix that a run begins with: 0 from each node to itself, and else
    /// the weight of the last edge given from the one node to the other, or the
    /// sentinel where none was given.
    pub open spec fn first_matrix(&self) -> Seq<Seq<i32>> {
        Seq::new(
            self.total_nodes as nat,
            |i: int|
                Seq::new(
                    self.total_nodes as nat,
                    |j: int|
                        if i == j {
                            0i32
                        } else {
                            stamped(self.edges@, self.edges@.len() as int, i, j)
                        },
                ),
        )
    }

    /// The matrix after the rounds by way of each of the first `k` nodes, a
    /// round relaxing every cell in turn, row by row.
    pub open spec fn after_rounds(&self, k: int) -> Seq<Seq<i32>>
        decreases k,
    {
        if k <= 0 {
            self.first_matrix()
        } else {
            swept(self.after_rounds(k - 1), self.total_nodes as int, k - 1, self.total_nodes as int)
        }
    }

    /// No cycle is negative, and twice the weight of a walk that passes no node
    /// twice stays within the range of a distance.
    pub open spec fn calm(&self) -> bool {
        no_negative_cycle(self.arcs()) && 2 * self.total_nodes * self.cap() < i32::MAX
    }

    /// The heaviest weight, multiplied by six once for each node, stays within
    /// the range of a distance.
    pub open spec fn small(&self) -> bool {
        self.cap() * sixfold(self.total_nodes as int) < i32::MAX
    }
}

impl GraphAlgorithm for FloydWarshallAlgorithm {
    /// Type of node.
    type Node = usize;

    /// Type of weight.
    type Weight = Vec<Vec<i32>>;

    /// Every edge joins two of the graph's nodes, and no sum that the rounds
    /// form leaves the range of a distance: either no cycle is negative and the
    /// weights are moderate, or the graph is small enough for the worst that
    /// negative cycles can do. The start plays no part.
    open spec fn admits(&self, start: Option<usize>) -> bool {
        self.well_formed() && (self.calm() || self.small())
    }

    /// The run never fails. It gives a square matrix with a row for each node:
    /// the matrix that the rounds by way of every node in turn leave. Each
    /// entry that is not the sentinel is the weight of a walk from the row's
    /// node to the column's; each entry in a row from whose node no negative
    /// cycle is reached is the distance; and no node is further than 0 from
    /// itself.
    open spec fn computes(
        &self,
        start: Option<usize>,
        outcome: Result<Vec<Vec<i32>>, GraphError>,
    ) -> bool {
        &&& outcome is Ok
        &&& square(outcome->Ok_0@, self.total_nodes as int)
        &&& tracks(outcome->Ok_0@, self.after_rounds(self.total_nodes as int), self.total_nodes as int)
        &&& forall|i: int, j: int|
            0 <= i < self.total_nodes && 0 <= j < self.total_nodes && (
            #[trigger] outcome->Ok_0@[i]@[j]) != i32::MAX ==> exists|p: Seq<Arc>|
                is_walk(self.arcs(), p, i, j) && walk_weight(p) == outcome->Ok_0@[i]@[j]
        &&& forall|i: int, j: int|
            0 <= i < self.total_nodes && 0 <= j < self.total_nodes && no_negative_cycle_from(
                self.arcs(),
                i,
            ) ==> self.is_distance(i, j, #[trigger] outcome->Ok_0@[i]@[j])
        &&& forall|i: int| 0 <= i < self.total_nodes ==> (#[trigger] outcome->Ok_0@[i])@[i] <= 0
    }

    /// Run Floyd-Warshall algorithm.
    fn run(&self, _start: Option<usize>) -> (outcome: Result<Vec<Vec<i32>>, GraphError>) {
        let total = self.total_nodes;
        let ghost n = total as int;
        let ghost g = self.arcs();
        let ghost cap = self.cap();
        let ghost calm = self.calm();
        let mut distances = vec![vec![i32::MAX; total]; total];

        let mut at: usize = 0;
        while at < self.edges.len()
            invariant
                total == self.total_nodes,
                self.well_formed(),
                0 <= at <= self.edges@.len(),
                square(distances@, total as int),
                forall|u: int, v: int|
                    0 <= u < total && 0 <= v < total ==> (#[trigger] distances@[u]@[v]) == stamped(
                        self.edges@,
                        at as int,
                        u,
                        v,
                    ),
            decreases self.edges.len() - at,
        {
            let (u, v, w) = self.edges[at];
            distances[u][v] = w;
            at += 1;
        }

        for v in 0..total
            invariant
                total == self.total_nodes,
                square(distances@, total as int),
                forall|a: int, b: int|
                    0 <= a < total && 0 <= b < total ==> (#[trigger] distances@[a]@[b]) == if a == b
                        && a < v {
                        0i32
                    } else {
                        stamped(self.edges@, self.edges@.len() as int, a, b)
                    },
        {
            distances[v][v] = 0;
        }

        let ghost mut room: int = cap;
        let ghost mut target = self.after_rounds(0);
        proof {
            self.lemma_arcs_shape();
            assert forall|a: int, b: int| 0 <= a < n && 0 <= b < n implies exact_v(
                g,
                a,
                b,
                0,
                #[trigger] distances@[a]@[b],
            ) by {
                self.lemma_first_stage(a, b);
            }
            assert forall|a: int, b: int|
                0 <= a < n && 0 <= b < n && (#[trigger] distances@[a]@[b]) != i32::MAX implies -cap
                <= distances@[a]@[b] <= cap by {
                if a != b {
                    let e = lemma_last_is_listed(self.edges@, self.edges@.len() as int, a, b);
                    lemma_heaviest_caps(self.edges@, self.edges@.len() as int, e);
                }
            }
            assert(cap * sixfold(0) == cap) by (nonlinear_arith)
                requires
                    sixfold(0) == 1,
            ;
        }

        for k in 0..total
            invariant
                total == self.total_nodes,
                n == total,
                g == self.arcs(),
                within(g, n),
                capped(g, cap),
                0 <= cap,
                calm ==> no_negative_cycle(g) && 2 * n * cap < i32::MAX,
                !calm ==> cap * sixfold(n) < i32::MAX && room == cap * sixfold(k as int) && bounded_by(
                    distances@,
                    n,
                    room,
                ),
                0 <= room,
                square(distances@, n),
                forall|a: int| 0 <= a < n ==> (#[trigger] distances@[a])@[a] <= 0,
                forall|a: int, b: int|
                    0 <= a < n && 0 <= b < n ==> exact_v(g, a, b, k as int, #[trigger] distances@[a]@[b]),
                target == self.after_rounds(k as int),
                tracks(distances@, target, n),
        {
            let ghost base = distances@;
            let ghost legroom = if calm {
                (n - 1) * cap
            } else {
                3 * room
            };
            proof {
                if calm {
                    assert(2 * ((n - 1) * cap) < i32::MAX) by (nonlinear_arith)
                        requires
                            2 * n * cap < i32::MAX,
                            0 <= cap,
                            n >= 1,
                    ;
                } else {
                    lemma_sixfold_grows(k + 1, n);
                    lemma_sixfold_positive(k as int);
                    assert(6 * (cap * sixfold(k as int)) <= cap * sixfold(n)) by (nonlinear_arith)
                        requires
                            6 * sixfold(k as int) <= sixfold(n),
                            0 <= cap,
                    ;
                    assert(0 <= cap * sixfold(k as int)) by (nonlinear_arith)
                        requires
                            0 <= cap,
                            1 <= sixfold(k as int),
                    ;
                }
            }
            for i in 0..total
                invariant
                    total == self.total_nodes,
                    n == total,
                    g == self.arcs(),
                    within(g, n),
                    capped(g, cap),
                    0 <= cap,
                    calm ==> no_negative_cycle(g),
                    legroom == if calm {
                        (n - 1) * cap
                    } else {
                        3 * room
                    },
                    2 * legroom < i32::MAX,
                    0 <= room,
                    0 <= k < total,
                    mid_round(g, n, k as int, i as int, 0, distances@, base),
                    !calm ==> roomy(distances@, n, k as int, room) && bounded_by(base, n, room),
                    target == swept(self.after_rounds(k as int), n, k as int, i as int),
                    tracks(distances@, target, n),
            {
                for j in 0..total
                    invariant
                        total == self.total_nodes,
                        n == total,
                        g == self.arcs(),
                        within(g, n),
                        capped(g, cap),
                        0 <= cap,
                        calm ==> no_negative_cycle(g),
                        legroom == if calm {
                            (n - 1) * cap
                        } else {
                            3 * room
                        },
                        2 * legroom < i32::MAX,
                        0 <= room,
                        0 <= k < total,
                        0 <= i < total,
                        mid_round(g, n, k as int, i as int, j as int, distances@, base),
                        !calm ==> roomy(distances@, n, k as int, room) && bounded_by(base, n, room),
                        target == swept_row(
                            swept(self.after_rounds(k as int), n, k as int, i as int),
                            k as int,
                            i as int,
                            j as int,
                        ),
                        tracks(distances@, target, n),
                {
                    let ghost now = distances@;
                    let x = distances[i][k];
                    let y = distances[k][j];
                    let was = distances[i][j];
                    proof {
                        let x_before = base[i as int]@[k as int];
                        let y_before = base[k as int]@[j as int];
                        assert(exact_v(g, i as int, k as int, k as int, x_before));
                        assert(exact_v(g, k as int, j as int, k as int, y_before));
                        assert(exact_v(g, i as int, j as int, k as int, was));
                        assert(sound_v(g, i as int, k as int, k + 1, x) && (x != i32::MAX ==> -legroom
                            <= x <= legroom)) by {
                            reveal(exact_v);
                            if k < j {
                                assert(exact_v(g, i as int, k as int, k + 1, x));
                                if calm && x != i32::MAX {
                                    assert(no_negative_cycle_from(g, i as int));
                                    lemma_value_bounded(g, n, cap, i as int, k as int, k + 1, x);
                                }
                            } else {
                                assert(x == x_before);
                                lemma_level_up(g, i as int, k as int, k as int, x);
                                if calm && x != i32::MAX {
                                    assert(no_negative_cycle_from(g, i as int));
                                    lemma_value_bounded(g, n, cap, i as int, k as int, k as int, x);
                                }
                            }
                            if !calm {
                                assert(now[i as int]@[k as int] == x);
                            }
                        }
                        assert(sound_v(g, k as int, j as int, k + 1, y) && (y != i32::MAX ==> -legroom
                            <= y <= legroom)) by {
                            reveal(exact_v);
                            if k < i {
                                assert(exact_v(g, k as int, j as int, k + 1, y));
                                if calm && y != i32::MAX {
                                    assert(no_negative_cycle_from(g, k as int));
                                    lemma_value_bounded(g, n, cap, k as int, j as int, k + 1, y);
                                }
                            } else {
                                assert(y == y_before);
                                lemma_level_up(g, k as int, j as int, k as int, y);
                                if calm && y != i32::MAX {
                                    assert(no_negative_cycle_from(g, k as int));
                                    lemma_value_bounded(g, n, cap, k as int, j as int, k as int, y);
                                }
                            }
                            if !calm {
                                assert(now[k as int]@[j as int] == y);
                            }
                        }
                        assert(complete_v(g, i as int, k as int, k as int, x_before) && complete_v(
                            g,
                            k as int,
                            j as int,
                            k as int,
                            y_before,
                        )) by {
                            reveal(exact_v);
                        }
                        lemma_relax_cell(
                            g,
                            k as int,
                            i as int,
                            j as int,
                            x,
                            x_before,
                            y,
                            y_before,
                            was,
                            legroom,
                        );
                    }
                    if x != i32::MAX && y != i32::MAX {
                        let through = x + y;
                        if through < was {
                            distances[i][j] = through;
                        }
                    }
                    proof {
                        let new = distances@[i as int]@[j as int];
                        assert(new == relax(x, y, was));
                        assert forall|a: int, b: int|
                            0 <= a < n && 0 <= b < n && !(a == i && b == j) implies (
                        #[trigger] distances@[a]@[b]) == now[a]@[b] by {}
                        let next = relax_at(target, k as int, i as int, j as int);
                        assert(tracks(distances@, next, n)) by {
                            assert forall|a: int| 0 <= a < n implies (#[trigger] next[a]).len() == n by {
                                if a != i {
                                    assert(next[a] == target[a]);
                                }
                            }
                            assert forall|a: int, b: int| 0 <= a < n && 0 <= b < n implies (
                            #[trigger] distances@[a]@[b]) == next[a][b] by {
                                assert(now[a]@[b] == target[a][b]);
                                assert(now[i as int]@[k as int] == target[i as int][k as int]);
                                assert(now[k as int]@[j as int] == target[k as int][j as int]);
                                assert(now[i as int]@[j as int] == target[i as int][j as int]);
                                if a != i {
                                    assert(next[a] == target[a]);
                                }
                            }
                        }
                        target = next;
                        if !calm {
                            assert(was == base[i as int]@[j as int]);
                            assert(was != i32::MAX ==> -room <= was <= room);
                            assert(now[i as int]@[k as int] == x);
                            assert(now[k as int]@[j as int] == y);
                            assert(now[k as int]@[k as int] != i32::MAX ==> -2 * room
                                <= now[k as int]@[k as int]);
                            assert(new != i32::MAX ==> -6 * room <= new <= 2 * room);
                            if j == k {
                                assert(x == was);
                                assert(new != i32::MAX ==> -3 * room <= new <= room);
                            }
                            if i == k {
                                assert(y == was);
                                assert(new != i32::MAX ==> -3 * room <= new <= room);
                            }
                            if i == k && j == k {
                                assert(new != i32::MAX ==> -2 * room <= new);
                            }
                            assert(roomy(distances@, n, k as int, room));
                        }
                    }
                }
            }
            proof {
                if !calm {
                    assert(6 * room == cap * sixfold(k + 1)) by (nonlinear_arith)
                        requires
                            room == cap * sixfold(k as int),
                            sixfold(k + 1) == 6 * sixfold(k as int),
                    ;
                    room = 6 * room;
                }
            }
        }

        proof {
            assert forall|i: int, j: int|
                0 <= i < self.total_nodes && 0 <= j < self.total_nodes && (
                #[trigger] distances@[i]@[j]) != i32::MAX implies exists|p: Seq<Arc>|
                is_walk(self.arcs(), p, i, j) && walk_weight(p) == distances@[i]@[j] by {
                self.lemma_last_stage(i, j, distances@[i]@[j]);
            }
            assert forall|i: int, j: int|
                0 <= i < self.total_nodes && 0 <= j < self.total_nodes && no_negative_cycle_from(
                    self.arcs(),
                    i,
                ) implies self.is_distance(i, j, #[trigger] distances@[i]@[j]) by {
                self.lemma_last_stage(i, j, distances@[i]@[j]);
            }
        }
        Ok(distances)
    }
}

impl Default for FloydWarshallAlgorithm {
    /// Create a new default instance of Floyd-Warshall Algorithm.
    fn default() -> (engine: Self)
        ensures
            engine.total_nodes == 0,
            engine.edges@ == Seq::<(usize, usize, i32)>::empty(),
            engine.well_formed(),
    {
        Self::new()
    }
}

} // verus!
