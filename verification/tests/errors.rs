use graph_algorithms::queue::{Frontier, State};
use graph_algorithms::{
    BellmanFordAlgorithm, DijkstraAlgorithm, FloydWarshallAlgorithm, GraphAlgorithm, GraphError,
};
use std::cmp::Ordering;

#[test]
fn test_graph_error() {
    assert_eq!(
        GraphError::NegativeWeightCycle.to_string(),
        "NegativeWeightCycle"
    );

    assert_eq!(GraphError::MissingStartNode.to_string(), "MissingStartNode");
}

#[test]
fn errors_compare_by_variant() {
    assert_eq!(GraphError::MissingStartNode, GraphError::MissingStartNode);
    assert_ne!(GraphError::MissingStartNode, GraphError::NegativeWeightCycle);
    assert_eq!(
        GraphError::NegativeWeightCycle.clone(),
        GraphError::NegativeWeightCycle
    );
}

#[test]
fn a_missing_start_fails_whatever_the_graph_holds() {
    let mut bellman_ford = BellmanFordAlgorithm::new();
    bellman_ford.add_edge(0, vec![(1, 1)]);
    assert_eq!(bellman_ford.run(None), Err(GraphError::MissingStartNode));

    let mut dijkstra = DijkstraAlgorithm::new();
    dijkstra.set_node(0, vec![(1, 1)]);
    assert_eq!(dijkstra.run(None), Err(GraphError::MissingStartNode));

    let mut floyd_warshall = FloydWarshallAlgorithm::new();
    floyd_warshall.set_edge(0, 1, 1);
    assert!(floyd_warshall.run(None).is_ok());
}

#[test]
fn dijkstra_and_bellman_ford_agree_without_negative_weights() {
    let edges: Vec<(usize, Vec<(usize, usize)>)> = vec![
        (0, vec![(1, 4), (2, 3)]),
        (1, vec![(2, 1), (3, 2)]),
        (2, vec![(3, 5)]),
        (3, vec![]),
        (4, vec![(0, 1)]),
    ];
    let mut dijkstra = DijkstraAlgorithm::new();
    let mut bellman_ford = BellmanFordAlgorithm::new();
    for (source, targets) in &edges {
        dijkstra.set_node(*source, targets.clone());
        bellman_ford.add_edge(
            *source,
            targets.iter().map(|&(t, w)| (t, w as i32)).collect(),
        );
    }

    let by_queue = dijkstra.run(Some(0)).unwrap();
    let by_rounds = bellman_ford.run(Some(0)).unwrap();
    assert_eq!(by_queue, vec![0, 4, 3, 6, usize::MAX]);
    assert_eq!(by_rounds, vec![0, 4, 3, 6, i32::MAX]);
    for node in 0..5 {
        if by_queue[node] != usize::MAX {
            assert_eq!(by_queue[node] as i64, by_rounds[node] as i64);
        } else {
            assert_eq!(by_rounds[node], i32::MAX);
        }
    }
}

#[test]
fn the_cheapest_state_leaves_first() {
    let mut frontier = Frontier::new();
    assert_eq!(frontier.pop(), None);
    frontier.push(State { cost: 5, position: 1 });
    frontier.push(State { cost: 2, position: 7 });
    frontier.push(State { cost: 9, position: 0 });
    frontier.push(State { cost: 2, position: 8 });

    assert_eq!(frontier.pop(), Some(State { cost: 2, position: 8 }));
    assert_eq!(frontier.pop(), Some(State { cost: 2, position: 7 }));
    assert_eq!(frontier.pop(), Some(State { cost: 5, position: 1 }));
    assert_eq!(frontier.pop(), Some(State { cost: 9, position: 0 }));
    assert_eq!(frontier.pop(), None);
}

#[test]
fn states_order_by_cost_reversed_then_by_position() {
    let cheap = State { cost: 1, position: 3 };
    let dear = State { cost: 4, position: 3 };
    let cheap_far = State { cost: 1, position: 9 };

    assert_eq!(cheap.cmp(&dear), Ordering::Greater);
    assert_eq!(dear.cmp(&cheap), Ordering::Less);
    assert_eq!(cheap.cmp(&cheap_far), Ordering::Less);
    assert_eq!(cheap_far.cmp(&cheap), Ordering::Greater);
    assert_eq!(cheap.cmp(&cheap), Ordering::Equal);
    assert_eq!(cheap.partial_cmp(&dear), Some(Ordering::Greater));
    assert!(cheap.is_served_before(&dear));
    assert!(!dear.is_served_before(&cheap));
}

#[test]
fn many_states_leave_in_order() {
    let costs = [9usize, 3, 7, 3, 1, 8, 2, 6, 5, 4, 0, 7, 3, 9, 1];
    let mut frontier = Frontier::new();
    for (position, cost) in costs.iter().enumerate() {
        frontier.push(State { cost: *cost, position });
    }

    let mut left = Vec::new();
    while let Some(state) = frontier.pop() {
        left.push((state.cost, state.position));
    }
    assert_eq!(
        left,
        vec![
            (0, 10),
            (1, 14),
            (1, 4),
            (2, 6),
            (3, 12),
            (3, 3),
            (3, 1),
            (4, 9),
            (5, 8),
            (6, 7),
            (7, 11),
            (7, 2),
            (8, 5),
            (9, 13),
            (9, 0)
        ]
    );
}

#[test]
fn pushes_and_pops_may_alternate() {
    let mut frontier = Frontier::new();
    frontier.push(State { cost: 4, position: 0 });
    frontier.push(State { cost: 2, position: 1 });
    assert_eq!(frontier.pop(), Some(State { cost: 2, position: 1 }));
    frontier.push(State { cost: 1, position: 2 });
    frontier.push(State { cost: 6, position: 3 });
    assert_eq!(frontier.pop(), Some(State { cost: 1, position: 2 }));
    assert_eq!(frontier.pop(), Some(State { cost: 4, position: 0 }));
    assert_eq!(frontier.pop(), Some(State { cost: 6, position: 3 }));
    assert_eq!(frontier.pop(), None);
    assert_eq!(frontier.pop(), None);
}
