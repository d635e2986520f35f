//! Dijkstra's algorithm: shortest distances from one node where no weight is negative.

use crate::paths::{
    is_least_weight, is_walk, lemma_walk_drop_last, lemma_walk_push, lemma_weight_non_negative,
    non_negative, walk_weight, Arc,
};
use crate::queue::{Frontier, State};
use crate::{GraphAlgorithm, GraphError};
use std::collections::HashMap;
use vstd::prelude::*;

verus! {

/// Dijkstra's Algorithm.
/// Find the shortest path from a starting node to all other nodes in a weighted graph.
#[derive(Debug, Clone)]
pub struct DijkstraAlgorithm {
    /// Graph to search.
    pub graph: HashMap<usize, Vec<(usize, usize)>>,
}

/// The map that results from writing `nodes` into `base` in order, a later entry
/// for a node replacing an earlier one.
pub open spec fn written(
    base: Map<usize, Vec<(usize, usize)>>,
    nodes: Seq<(usize, Vec<(usize, usize)>)>,
) -> Map<usize, Vec<(usize, usize)>>
    decreases nodes.len(),
{
    if nodes.len() == 0 {
        base
    } else {
        written(base, nodes.drop_last()).insert(nodes.last().0, nodes.last().1)
    }
}

/// What a node counts in the measure of the work left: its recorded distance, or
/// more than any distance where none is recorded.
pub open spec fn slack(dist: Map<usize, usize>, v: int) -> int {
    if 0 <= v <= usize::MAX && dist.contains_key(v as usize) {
        dist[v as usize] as int
    } else {
        usize::MAX + 1
    }
}

/// The slack of all nodes below `n`, summed.
pub open spec fn total_slack(dist: Map<usize, usize>, n: int) -> int
    decreases n,
{
    if n <= 0 {
        0
    } else {
        total_slack(dist, n - 1) + slack(dist, n - 1)
    }
}

/// Recording a distance for a node that had none, or a lower one than it had,
/// lowers the total slack.
pub proof fn lemma_slack_drops(dist: Map<usize, usize>, v: usize, cost: usize, n: int)
    requires
        dist.contains_key(v) ==> cost < dist[v],
    ensures
        0 <= total_slack(dist.insert(v, cost), n),
        v < n ==> total_slack(dist.insert(v, cost), n) < total_slack(dist, n),
        v >= n ==> total_slack(dist.insert(v, cost), n) == total_slack(dist, n),
    decreases n,
{
    if n > 0 {
        lemma_slack_drops(dist, v, cost, n - 1);
    }
}

impl DijkstraAlgorithm {
    /// Node `u` has an `i`-th outgoing edge.
    pub open spec fn has_arc(&self, u: usize, i: int) -> bool {
        self.graph@.contains_key(u) && 0 <= i < self.graph@[u]@.len()
    }

    /// The `i`-th outgoing edge of node `u`.
    pub open spec fn arc(&self, u: usize, i: int) -> Arc {
        (u as int, self.graph@[u]@[i].0 as int, self.graph@[u]@[i].1 as int)
    }

    /// The edges of the graph.
    pub open spec fn arcs(&self) -> Set<Arc> {
        Set::new(|e: Arc| exists|u: usize, i: int| self.has_arc(u, i) && #[trigger] self.arc(u, i) == e)
    }

    /// The distance that a run from `start` reports for node `v`: the least weight
    /// of a walk from `start` to `v`, where that is below the largest number, and
    /// the largest number where no walk weighs less than it.
    pub open spec fn is_distance(&self, start: usize, v: int, d: usize) -> bool {
        if d < usize::MAX {
            is_least_weight(self.arcs(), start as int, v, d as int)
        } else {
            forall|p: Seq<Arc>| is_walk(self.arcs(), p, start as int, v) ==> walk_weight(p) >= usize::MAX
        }
    }

    /// Create a new instance of Dijkstra's Algorithm.
    pub fn new() -> (engine: Self)
        ensures
            engine.graph@ == Map::<usize, Vec<(usize, usize)>>::empty(),
    {
        DijkstraAlgorithm { graph: HashMap::new() }
    }

    /// Set the node of the graph: `edges` replace what the node had.
    pub fn set_node(&mut self, node: usize, edges: Vec<(usize, usize)>)
        ensures
            final(self).graph@ == old(self).graph@.insert(node, edges),
    {
        self.graph.insert(node, edges);
    }

    /// Set the nodes of the graph, in order.
    pub fn set_nodes(&mut self, nodes: Vec<(usize, Vec<(usize, usize)>)>)
        ensures
            final(self).graph@ == written(old(self).graph@, nodes@),
    {
        let ghost all = nodes@;
        let ghost base = self.graph@;
        for (node, edges) in it: nodes
            invariant
                it.seq() == all,
                self.graph@ == written(base, all.subrange(0, it.index() as int)),
        {
            proof {
                let more = all.subrange(0, it.index() + 1);
                assert(more.drop_last() =~= all.subrange(0, it.index() as int));
                assert(more.last() == (node, edges));
            }
            self.graph.insert(node, edges);
        }
        proof {
            assert(all.subrange(0, all.len() as int) =~= all);
        }
    }
}

/// The search's record is sound: each recorded distance is the weight of a walk from `start`.
pub open spec fn recorded_by_walks(g: Set<Arc>, start: usize, dist: Map<usize, usize>) -> bool {
    forall|v: usize| #[trigger]
        dist.contains_key(v) ==> exists|p: Seq<Arc>|
            is_walk(g, p, start as int, v as int) && walk_weight(p) == dist[v]
}

impl DijkstraAlgorithm {
    /// The first `upto` outgoing edges of `u` cannot improve on the record: each
    /// leads to a node whose recorded distance is no more than that of `u` plus
    /// the edge's weight, unless that sum is too large to record.
    pub open spec fn relaxed_upto(&self, dist: Map<usize, usize>, u: usize, upto: int) -> bool {
        forall|i: int| #![trigger self.graph@[u]@[i]]
            self.has_arc(u, i) && i < upto && dist[u] + self.graph@[u]@[i].1 <= usize::MAX ==> {
                &&& dist.contains_key(self.graph@[u]@[i].0)
                &&& dist[self.graph@[u]@[i].0] <= dist[u] + self.graph@[u]@[i].1
            }
    }

    /// All outgoing edges of `u` are relaxed.
    pub open spec fn relaxed(&self, dist: Map<usize, usize>, u: usize) -> bool {
        self.relaxed_upto(dist, u, self.graph@[u]@.len() as int)
    }

    /// Every node with a recorded distance either waits in the frontier with that
    /// distance or has all its outgoing edges relaxed; `skip` is the node at work.
    pub open spec fn settled_or_waiting(
        &self,
        dist: Map<usize, usize>,
        waiting: vstd::multiset::Multiset<State>,
        skip: Option<usize>,
    ) -> bool {
        forall|u: usize| #[trigger]
            dist.contains_key(u) && skip != Some(u) ==> waiting.contains(
                State { cost: dist[u], position: u },
            ) || self.relaxed(dist, u)
    }

    /// Every edge of the graph joins two nodes and has a weight that is not negative.
    pub proof fn lemma_arcs_shape(&self)
        ensures
            non_negative(self.arcs()),
            forall|e: Arc| #[trigger]
                self.arcs().contains(e) ==> 0 <= e.0 <= usize::MAX && 0 <= e.1 <= usize::MAX && e.2
                    <= usize::MAX,
    {
    }

    /// Once every recorded node has its edges relaxed, no walk from `start` that
    /// is light enough to record undercuts the record.
    pub proof fn lemma_record_is_least(&self, start: usize, dist: Map<usize, usize>, p: Seq<Arc>, v: int)
        requires
            dist.contains_key(start),
            dist[start] == 0,
            forall|u: usize| #[trigger] dist.contains_key(u) ==> self.relaxed(dist, u),
            is_walk(self.arcs(), p, start as int, v),
            walk_weight(p) <= usize::MAX,
        ensures
            0 <= v <= usize::MAX,
            dist.contains_key(v as usize),
            dist[v as usize] <= walk_weight(p),
        decreases p.len(),
    {
        self.lemma_arcs_shape();
        if p.len() > 0 {
            let e = p.last();
            lemma_walk_drop_last(self.arcs(), p, start as int, v);
            lemma_weight_non_negative(self.arcs(), p.drop_last(), start as int, e.0);
            assert(self.arcs().contains(e));
            assert(0 <= e.2);
            self.lemma_record_is_least(start, dist, p.drop_last(), e.0);
            let (u, i) = choose|u: usize, i: int| self.has_arc(u, i) && #[trigger] self.arc(u, i) == e;
            assert(self.relaxed(dist, u));
            assert(self.graph@[u]@[i].1 == e.2);
            assert(self.graph@[u]@[i].0 == v);
        }
    }
}

impl GraphAlgorithm for DijkstraAlgorithm {
    /// Type of node.
    type Node = usize;

    /// Type of weight.
    type Weight = Vec<usize>;

    /// Every start is admitted, whatever the graph holds.
    open spec fn admits(&self, start: Option<usize>) -> bool {
        true
    }

    /// Without a start the run fails; with one it gives, for each node below the
    /// number of registered nodes, the distance from the start.
    open spec fn computes(&self, start: Option<usize>, outcome: Result<Vec<usize>, GraphError>) -> bool {
        match start {
            None => outcome == Err::<Vec<usize>, GraphError>(GraphError::MissingStartNode),
            Some(s) => {
                &&& outcome is Ok
                &&& outcome->Ok_0@.len() == self.graph@.len()
                &&& forall|v: int|
                    0 <= v < outcome->Ok_0@.len() ==> self.is_distance(s, v, #[trigger] outcome->Ok_0@[v])
            },
        }
    }

    /// Run Dijkstra's Algorithm.
    fn run(&self, start: Option<usize>) -> (outcome: Result<Vec<usize>, GraphError>) {
        let start = match start {
            None => {
                return Err(GraphError::MissingStartNode);
            },
            Some(s) => s,
        };
        let ghost g = self.arcs();

        let mut priority_queue = Frontier::new();
        let mut distances: HashMap<usize, usize> = HashMap::new();

        distances.insert(start, 0);
        priority_queue.push(State { cost: 0, position: start });
        proof {
            assert(is_walk(g, Seq::<Arc>::empty(), start as int, start as int));
            assert(walk_weight(Seq::<Arc>::empty()) == 0);
            assert(distances@ =~= Map::<usize, usize>::empty().insert(start, 0));
            lemma_slack_drops(Map::<usize, usize>::empty(), start, 0, usize::MAX + 1);
        }

        loop
            invariant
                g == self.arcs(),
                distances@.contains_key(start),
                distances@[start] == 0,
                recorded_by_walks(g, start, distances@),
                priority_queue.well_formed(),
                self.settled_or_waiting(distances@, priority_queue@, None),
                forall|q: State| #[trigger]
                    priority_queue@.contains(q) ==> distances@.contains_key(q.position)
                        && distances@[q.position] <= q.cost,
                0 <= total_slack(distances@, usize::MAX + 1),
            ensures
                g == self.arcs(),
                distances@.contains_key(start),
                distances@[start] == 0,
                recorded_by_walks(g, start, distances@),
                forall|u: usize| #[trigger] distances@.contains_key(u) ==> self.relaxed(distances@, u),
            decreases 2 * total_slack(distances@, usize::MAX + 1) + priority_queue@.len(),
        {
            let ghost before = priority_queue@;
            let ghost measure = 2 * total_slack(distances@, usize::MAX + 1) + priority_queue@.len();
            let state = match priority_queue.pop() {
                None => {
                    proof {
                        assert forall|u: usize| #[trigger] distances@.contains_key(u) implies self.relaxed(
                            distances@,
                            u,
                        ) by {
                            assert(!before.contains(State { cost: distances@[u], position: u }));
                        }
                    }
                    break ;
                },
                Some(s) => s,
            };
            assert(priority_queue@.len() == before.len() - 1);
            assert(forall|q: State| #[trigger] priority_queue@.contains(q) ==> before.contains(q));
            assert(forall|q: State| q != state && before.contains(q) ==> #[trigger] priority_queue@.contains(q));

            // Determine if the current shortest path is already known.
            // If it is, skip the current node.
            let stale = match distances.get(&state.position) {
                Some(known) => state.cost > *known,
                None => false,
            };
            if !stale {
                let here = state.position;
                assert(distances@[here] == state.cost);
                match self.graph.get(&here) {
                    Some(neighbors) => {
                        let mut at: usize = 0;
                        while at < neighbors.len()
                            invariant
                                g == self.arcs(),
                                self.graph@.contains_key(here),
                                neighbors == self.graph@[here],
                                0 <= at <= neighbors@.len(),
                                distances@.contains_key(start),
                                distances@[start] == 0,
                                distances@.contains_key(here),
                                distances@[here] == state.cost,
                                recorded_by_walks(g, start, distances@),
                                priority_queue.well_formed(),
                                self.settled_or_waiting(distances@, priority_queue@, Some(here)),
                                self.relaxed_upto(distances@, here, at as int),
                                forall|q: State| #[trigger]
                                    priority_queue@.contains(q) ==> distances@.contains_key(q.position)
                                        && distances@[q.position] <= q.cost,
                                0 <= total_slack(distances@, usize::MAX + 1),
                                2 * total_slack(distances@, usize::MAX + 1) + priority_queue@.len()
                                    < measure,
                            decreases neighbors.len() - at,
                        {
                            let (neighbor, weight) = neighbors[at];
                            assert(self.has_arc(here, at as int));
                            match state.cost.checked_add(weight) {
                                Some(cost) => {
                                    let next = State { cost, position: neighbor };
                                    // Determine if the new path is shorter than the current shortest path.
                                    // If it is, update the shortest path.
                                    let shorter = match distances.get(&neighbor) {
                                        Some(known) => next.cost < *known,
                                        None => true,
                                    };
                                    if shorter {
                                        let ghost old_dist = distances@;
                                        let ghost old_queue = priority_queue@;
                                        distances.insert(neighbor, next.cost);
                                        priority_queue.push(next);
                                        proof {
                                            lemma_slack_drops(old_dist, neighbor, cost, usize::MAX + 1);
                                            let e = self.arc(here, at as int);
                                            assert(g.contains(e));
                                            let p = choose|p: Seq<Arc>|
                                                is_walk(g, p, start as int, here as int) && walk_weight(p)
                                                    == old_dist[here];
                                            lemma_walk_push(g, p, start as int, e);
                                            assert forall|v: usize| #[trigger]
                                                distances@.contains_key(v) implies exists|p: Seq<Arc>|
                                                is_walk(g, p, start as int, v as int) && walk_weight(p)
                                                    == distances@[v] by {
                                                if v == neighbor {
                                                    assert(is_walk(g, p.push(e), start as int, v as int));
                                                } else {
                                                    assert(old_dist.contains_key(v));
                                                }
                                            }
                                            assert forall|q: State| #[trigger]
                                                priority_queue@.contains(q) implies distances@.contains_key(
                                                q.position,
                                            ) && distances@[q.position] <= q.cost by {
                                                if q != next {
                                                    assert(old_queue.contains(q));
                                                }
                                            }
                                            assert forall|u: usize| #[trigger]
                                                distances@.contains_key(u) && Some(here) != Some(
                                                    u,
                                                ) implies priority_queue@.contains(
                                                State { cost: distances@[u], position: u },
                                            ) || self.relaxed(distances@, u) by {
                                                if u != neighbor {
                                                    assert(old_dist.contains_key(u));
                                                    if !old_queue.contains(
                                                        State { cost: old_dist[u], position: u },
                                                    ) {
                                                        assert(self.relaxed(old_dist, u));
                                                    }
                                                }
                                            }
                                        }
                                    }
                                },
                                None => {},
                            }
                            at += 1;
                        }
                    },
                    None => {},
                }
                proof {
                    assert(self.relaxed(distances@, here));
                }
            } else {
                proof {
                    assert forall|u: usize| #[trigger] distances@.contains_key(u) implies priority_queue@.contains(
                        State { cost: distances@[u], position: u },
                    ) || self.relaxed(distances@, u) by {
                        if before.contains(State { cost: distances@[u], position: u }) {
                            assert(State { cost: distances@[u], position: u } != state);
                        }
                    }
                }
            }
        }

        // Convert the distances to a vector of shortest paths.
        let total = self.graph.len();
        let mut result: Vec<usize> = Vec::new();
        let mut node: usize = 0;
        while node < total
            invariant
                g == self.arcs(),
                total == self.graph@.len(),
                0 <= node <= total,
                result@.len() == node,
                distances@.contains_key(start),
                distances@[start] == 0,
                recorded_by_walks(g, start, distances@),
                forall|u: usize| #[trigger] distances@.contains_key(u) ==> self.relaxed(distances@, u),
                forall|v: int| 0 <= v < node ==> self.is_distance(start, v, #[trigger] result@[v]),
            decreases total - node,
        {
            let found = match distances.get(&node) {
                Some(known) => *known,
                None => usize::MAX,
            };
            proof {
                assert forall|p: Seq<Arc>| is_walk(g, p, start as int, node as int) implies found
                    <= walk_weight(p) by {
                    if walk_weight(p) <= usize::MAX {
                        self.lemma_record_is_least(start, distances@, p, node as int);
                    }
                }
                if found < usize::MAX {
                    assert(distances@.contains_key(node));
                }
                assert(self.is_distance(start, node as int, found));
            }
            result.push(found);
            node += 1;
        }
        Ok(result)
    }
}

impl Default for DijkstraAlgorithm {
    /// Create a new default instance of Dijkstra's Algorithm.
    fn default() -> (engine: Self)
        ensures
            engine.graph@ == Map::<usize, Vec<(usize, usize)>>::empty(),
    {
        Self::new()
    }
}

} // verus!
