//! What holds of every run of the three engines, proved from their contracts.

use crate::bellman_ford::{relaxed, BellmanFordAlgorithm};
use crate::dijkstra::DijkstraAlgorithm;
use crate::floyd_warshall::FloydWarshallAlgorithm;
use crate::paths::{
    is_walk, lemma_least_unique, lemma_walk_push, negative_cycle_through, reachable,
    walk_weight, Arc,
};
use crate::{GraphAlgorithm, GraphError};
use vstd::prelude::*;

verus! {

/// Bellman-Ford puts the start at distance 0.
pub proof fn lemma_bellman_ford_start_is_zero(engine: &BellmanFordAlgorithm, start: isize, d: Vec<i32>)
    requires
        engine.computes(Some(start), Ok(d)),
    ensures
        d@[start as int] == 0,
{
}

/// Dijkstra puts the start at distance 0, where the result has an entry for it.
pub proof fn lemma_dijkstra_start_is_zero(engine: &DijkstraAlgorithm, start: usize, d: Vec<usize>)
    requires
        engine.computes(Some(start), Ok(d)),
        start < d@.len(),
    ensures
        d@[start as int] == 0,
{
    let g = engine.arcs();
    let stay = Seq::<Arc>::empty();
    assert(is_walk(g, stay, start as int, start as int));
    assert(walk_weight(stay) == 0);
    assert(engine.is_distance(start, start as int, d@[start as int]));
}

/// In a result of Bellman-Ford no edge leads from a node with a distance to a
/// node that is further away than that distance and the edge's weight together.
pub proof fn lemma_bellman_ford_triangle(
    engine: &BellmanFordAlgorithm,
    start: isize,
    d: Vec<i32>,
    at: int,
)
    requires
        engine.computes(Some(start), Ok(d)),
        0 <= at < engine.edges@.len(),
        d@[engine.edges@[at].source as int] != i32::MAX,
    ensures
        d@[engine.edges@[at].destination as int] <= d@[engine.edges@[at].source as int]
            + engine.edges@[at].weight,
{
    assert(relaxed(d@, engine.edges@[at]));
}

/// In a result of Dijkstra no edge between two nodes of the result leads from a
/// node with a distance to a node that is further away than that distance and
/// the edge's weight together.
pub proof fn lemma_dijkstra_triangle(
    engine: &DijkstraAlgorithm,
    start: usize,
    d: Vec<usize>,
    u: usize,
    at: int,
)
    requires
        engine.computes(Some(start), Ok(d)),
        engine.has_arc(u, at),
        u < d@.len(),
        engine.graph@[u]@[at].0 < d@.len(),
        d@[u as int] != usize::MAX,
    ensures
        d@[engine.graph@[u]@[at].0 as int] <= d@[u as int] + engine.graph@[u]@[at].1,
{
    let g = engine.arcs();
    let e = engine.arc(u, at);
    let v = engine.graph@[u]@[at].0;
    assert(g.contains(e));
    assert(engine.is_distance(start, u as int, d@[u as int]));
    assert(engine.is_distance(start, v as int, d@[v as int]));
    let p = choose|p: Seq<Arc>| is_walk(g, p, start as int, u as int) && walk_weight(p) == d@[u as int];
    lemma_walk_push(g, p, start as int, e);
    assert(is_walk(g, p.push(e), start as int, v as int));
}

/// Two runs of Bellman-Ford on one graph from one start end alike.
pub proof fn lemma_bellman_ford_runs_agree(
    engine: &BellmanFordAlgorithm,
    start: Option<isize>,
    first: Result<Vec<i32>, GraphError>,
    second: Result<Vec<i32>, GraphError>,
)
    requires
        engine.computes(start, first),
        engine.computes(start, second),
    ensures
        first is Ok <==> second is Ok,
        first is Ok ==> first->Ok_0@ == second->Ok_0@,
        first is Err ==> first->Err_0 == second->Err_0,
{
    if start is Some && first is Ok {
        let s = start->0 as int;
        let a = first->Ok_0@;
        let b = second->Ok_0@;
        assert forall|v: int| 0 <= v < a.len() implies a[v] == b[v] by {
            assert(engine.is_distance(s, v, a[v]));
            assert(engine.is_distance(s, v, b[v]));
            if a[v] != i32::MAX {
                let p = choose|p: Seq<Arc>| is_walk(engine.arcs(), p, s, v) && walk_weight(p) == a[v];
                assert(is_walk(engine.arcs(), p, s, v));
                lemma_least_unique(engine.arcs(), s, v, a[v] as int, b[v] as int);
            } else if b[v] != i32::MAX {
                let p = choose|p: Seq<Arc>| is_walk(engine.arcs(), p, s, v) && walk_weight(p) == b[v];
                assert(is_walk(engine.arcs(), p, s, v));
            }
        }
        assert(a =~= b);
    }
}

/// Two runs of Dijkstra on one graph from one start end alike.
pub proof fn lemma_dijkstra_runs_agree(
    engine: &DijkstraAlgorithm,
    start: Option<usize>,
    first: Result<Vec<usize>, GraphError>,
    second: Result<Vec<usize>, GraphError>,
)
    requires
        engine.computes(start, first),
        engine.computes(start, second),
    ensures
        first is Ok <==> second is Ok,
        first is Ok ==> first->Ok_0@ == second->Ok_0@,
        first is Err ==> first->Err_0 == second->Err_0,
{
    if start is Some {
        let s = start->0;
        let a = first->Ok_0@;
        let b = second->Ok_0@;
        assert forall|v: int| 0 <= v < a.len() implies a[v] == b[v] by {
            assert(engine.is_distance(s, v, a[v]));
            assert(engine.is_distance(s, v, b[v]));
            if a[v] < usize::MAX && b[v] < usize::MAX {
                lemma_least_unique(engine.arcs(), s as int, v, a[v] as int, b[v] as int);
            } else if a[v] < usize::MAX {
                let p = choose|p: Seq<Arc>|
                    is_walk(engine.arcs(), p, s as int, v) && walk_weight(p) == a[v];
                assert(walk_weight(p) >= usize::MAX);
            } else if b[v] < usize::MAX {
                let p = choose|p: Seq<Arc>|
                    is_walk(engine.arcs(), p, s as int, v) && walk_weight(p) == b[v];
                assert(walk_weight(p) >= usize::MAX);
            }
        }
        assert(a =~= b);
    }
}

/// Two runs of Floyd-Warshall on one graph end alike, whatever start each was given.
pub proof fn lemma_floyd_warshall_runs_agree(
    engine: &FloydWarshallAlgorithm,
    start: Option<usize>,
    other_start: Option<usize>,
    first: Result<Vec<Vec<i32>>, GraphError>,
    second: Result<Vec<Vec<i32>>, GraphError>,
)
    requires
        engine.computes(start, first),
        engine.computes(other_start, second),
    ensures
        first is Ok,
        second is Ok,
        first->Ok_0@.len() == second->Ok_0@.len(),
        forall|i: int| 0 <= i < first->Ok_0@.len() ==> (#[trigger] first->Ok_0@[i])@ == second->Ok_0@[i]@,
{
    let a = first->Ok_0@;
    let b = second->Ok_0@;
    let n = engine.total_nodes as int;
    let both = engine.after_rounds(n);
    assert forall|i: int| 0 <= i < a.len() implies (#[trigger] a[i])@ == b[i]@ by {
        assert forall|j: int| 0 <= j < a[i]@.len() implies a[i]@[j] == b[i]@[j] by {
            assert(a[i]@[j] == both[i][j]);
            assert(b[i]@[j] == both[i][j]);
        }
        assert(a[i]@ =~= b[i]@);
    }
}

/// On one graph, Dijkstra and Bellman-Ford from one start agree on every node
/// that both results hold: a node that is reached has one distance in both, and
/// a node that is not reached has each engine's sentinel.
pub proof fn lemma_engines_agree(
    by_queue: &DijkstraAlgorithm,
    by_rounds: &BellmanFordAlgorithm,
    start: isize,
    a: Vec<usize>,
    b: Vec<i32>,
    v: int,
)
    requires
        by_queue.arcs() == by_rounds.arcs(),
        0 <= start,
        by_rounds.computes(Some(start), Ok(b)),
        by_queue.computes(Some(start as usize), Ok(a)),
        0 <= v < a@.len(),
        v < b@.len(),
    ensures
        reachable(by_rounds.arcs(), start as int, v) ==> a@[v] == b@[v] && b@[v] != i32::MAX,
        !reachable(by_rounds.arcs(), start as int, v) ==> a@[v] == usize::MAX && b@[v] == i32::MAX,
{
    let g = by_rounds.arcs();
    let s = start as int;
    assert(by_rounds.is_distance(s, v, b@[v]));
    assert(by_queue.is_distance(start as usize, v, a@[v]));
    if b@[v] != i32::MAX {
        let p = choose|p: Seq<Arc>| is_walk(g, p, s, v) && walk_weight(p) == b@[v];
        assert(is_walk(g, p, s, v));
        if a@[v] < usize::MAX {
            lemma_least_unique(g, s, v, a@[v] as int, b@[v] as int);
        } else {
            assert(walk_weight(p) >= usize::MAX);
        }
    } else if a@[v] < usize::MAX {
        let p = choose|p: Seq<Arc>| is_walk(g, p, s, v) && walk_weight(p) == a@[v];
        assert(is_walk(g, p, s, v));
    }
}

/// In a result of Floyd-Warshall a node through which no negative cycle
/// passes is at distance 0 from itself.
pub proof fn lemma_floyd_warshall_diagonal(
    engine: &FloydWarshallAlgorithm,
    start: Option<usize>,
    m: Vec<Vec<i32>>,
    i: int,
)
    requires
        engine.computes(start, Ok(m)),
        0 <= i < engine.total_nodes,
        !negative_cycle_through(engine.arcs(), i),
    ensures
        m@[i]@[i] == 0,
{
    assert(m@[i]@[i] <= 0);
    if m@[i]@[i] < 0 {
        let c = choose|p: Seq<Arc>| is_walk(engine.arcs(), p, i, i) && walk_weight(p) == m@[i]@[i];
        assert(is_walk(engine.arcs(), c, i, i) && walk_weight(c) < 0);
    }
}

/// In a result of Floyd-Warshall a negative entry on the diagonal shows a
/// negative cycle through its node.
pub proof fn lemma_floyd_warshall_negative_diagonal(
    engine: &FloydWarshallAlgorithm,
    start: Option<usize>,
    m: Vec<Vec<i32>>,
    i: int,
)
    requires
        engine.computes(start, Ok(m)),
        0 <= i < engine.total_nodes,
        m@[i]@[i] < 0,
    ensures
        negative_cycle_through(engine.arcs(), i),
{
    let c = choose|p: Seq<Arc>| is_walk(engine.arcs(), p, i, i) && walk_weight(p) == m@[i]@[i];
    assert(is_walk(engine.arcs(), c, i, i) && walk_weight(c) < 0);
}

/// A node that no walk from the start reaches keeps the sentinel in a result of
/// Bellman-Ford.
pub proof fn lemma_bellman_ford_unreached(
    engine: &BellmanFordAlgorithm,
    start: isize,
    d: Vec<i32>,
    v: int,
)
    requires
        engine.computes(Some(start), Ok(d)),
        0 <= v < d@.len(),
        !reachable(engine.arcs(), start as int, v),
    ensures
        d@[v] == i32::MAX,
{
    assert(engine.is_distance(start as int, v, d@[v]));
    if d@[v] != i32::MAX {
        let p = choose|p: Seq<Arc>| is_walk(engine.arcs(), p, start as int, v) && walk_weight(p) == d@[v];
        assert(is_walk(engine.arcs(), p, start as int, v));
    }
}

/// A node that no walk from the start reaches keeps the sentinel in a result of
/// Dijkstra.
pub proof fn lemma_dijkstra_unreached(engine: &DijkstraAlgorithm, start: usize, d: Vec<usize>, v: int)
    requires
        engine.computes(Some(start), Ok(d)),
        0 <= v < d@.len(),
        !reachable(engine.arcs(), start as int, v),
    ensures
        d@[v] == usize::MAX,
{
    assert(engine.is_distance(start, v, d@[v]));
    if d@[v] != usize::MAX {
        let p = choose|p: Seq<Arc>| is_walk(engine.arcs(), p, start as int, v) && walk_weight(p) == d@[v];
        assert(is_walk(engine.arcs(), p, start as int, v));
    }
}

/// Between two nodes that no walk joins, a result of Floyd-Warshall keeps the sentinel.
pub proof fn lemma_floyd_warshall_unreached(
    engine: &FloydWarshallAlgorithm,
    start: Option<usize>,
    m: Vec<Vec<i32>>,
    i: int,
    j: int,
)
    requires
        engine.computes(start, Ok(m)),
        0 <= i < engine.total_nodes,
        0 <= j < engine.total_nodes,
        !reachable(engine.arcs(), i, j),
    ensures
        m@[i]@[j] == i32::MAX,
{
    if m@[i]@[j] != i32::MAX {
        let p = choose|p: Seq<Arc>| is_walk(engine.arcs(), p, i, j) && walk_weight(p) == m@[i]@[j];
        assert(is_walk(engine.arcs(), p, i, j));
    }
}

/// Without a start, a run of a single-source engine fails for want of one,
/// whatever the graph holds.
pub proof fn lemma_missing_start(
    by_queue: &DijkstraAlgorithm,
    by_rounds: &BellmanFordAlgorithm,
    first: Result<Vec<usize>, GraphError>,
    second: Result<Vec<i32>, GraphError>,
)
    requires
        by_queue.computes(None, first),
        by_rounds.computes(None, second),
    ensures
        first == Err::<Vec<usize>, GraphError>(GraphError::MissingStartNode),
        second == Err::<Vec<i32>, GraphError>(GraphError::MissingStartNode),
{
}

} // verus!
