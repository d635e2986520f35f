use graph_algorithms::{BellmanFordAlgorithm, GraphAlgorithm, GraphError};

#[test]
fn bellman_ford_test_new() {
    let algorithm = BellmanFordAlgorithm::new();
    let algorithm_default = BellmanFordAlgorithm::default();

    assert_eq!(algorithm.edges.len(), 0);
    assert_eq!(algorithm_default.edges.len(), 0);
}

#[test]
fn bellman_ford_test_missing_start_node() {
    let algorithm = BellmanFordAlgorithm::new();

    assert_eq!(algorithm.run(None), Err(GraphError::MissingStartNode));
}

#[test]
fn bellman_ford_test_run() {
    let mut algorithm = BellmanFordAlgorithm {
        total_vertices: 50,
        edges: Vec::new(),
    };

    let edges = vec![
        (0, 1, 4),
        (0, 2, 1),
        (1, 2, 2),
        (1, 3, 5),
        (2, 3, 8),
        (2, 4, 2),
        (3, 5, 3),
        (4, 5, 4),
        (5, 6, 1),
        (6, 7, 3),
        (7, 8, 2),
        (8, 9, 6),
        (9, 10, 2),
        (10, 11, 1),
        (11, 12, 3),
        (12, 13, 4),
        (13, 14, 2),
        (14, 15, 1),
        (15, 16, 5),
        (16, 17, 1),
        (17, 18, 2),
        (18, 19, 3),
        (19, 20, 6),
        (20, 21, 2),
        (21, 22, 1),
        (22, 23, 3),
        (23, 24, 4),
        (24, 25, 2),
        (25, 26, 1),
        (26, 27, 5),
        (27, 28, 1),
        (28, 29, 2),
        (29, 30, 3),
        (30, 31, 6),
        (31, 32, 2),
        (32, 33, 1),
        (33, 34, 3),
        (34, 35, 4),
        (35, 36, 2),
        (36, 37, 1),
        (37, 38, 5),
        (38, 39, 1),
        (39, 40, 2),
        (40, 41, 3),
        (41, 42, 6),
        (42, 43, 2),
        (43, 44, 1),
        (44, 45, 4),
        (45, 46, 1),
        (46, 47, 2),
        (47, 48, 3),
        (48, 49, 1),
    ];

    for (source, destination, weight) in edges {
        algorithm.add_edge(source, vec![(destination, weight)]);
    }

    let result = algorithm.run(Some(0)).unwrap();

    assert_eq!(result[0], 0);

    for &distance in &result {
        assert!(distance >= 0 || distance == i32::MAX);
    }

    for item in result.iter().take(10).skip(1) {
        assert!(item < &i32::MAX);
    }
}

#[test]
fn bellman_ford_test_run_single_node_graph() {
    let mut algorithm = BellmanFordAlgorithm::new();
    algorithm.add_edge(0, vec![]);

    assert_eq!(algorithm.run(Some(0)).unwrap(), vec![0]);
}

#[test]
fn test_run_simple_graph_no_negative_edges() {
    let mut algorithm = BellmanFordAlgorithm::new();
    algorithm.add_edge(0, vec![(1, 4), (2, 3)]);
    algorithm.add_edge(1, vec![(2, 1), (3, 2)]);
    algorithm.add_edge(2, vec![(3, 5)]);

    assert_eq!(algorithm.run(Some(0)).unwrap(), vec![0, 4, 3, 6]);
}

#[test]
fn test_run_graph_with_negative_edge() {
    let mut algorithm = BellmanFordAlgorithm::new();
    algorithm.add_edge(0, vec![(1, 4), (2, 3)]);
    algorithm.add_edge(1, vec![(2, -2), (3, 2)]);
    algorithm.add_edge(2, vec![(3, 3)]);

    assert_eq!(algorithm.run(Some(0)).unwrap(), vec![0, 4, 2, 5]);
}

#[test]
fn test_run_graph_with_no_edges() {
    let mut algorithm = BellmanFordAlgorithm::new();
    algorithm.add_edge(0, vec![]);
    algorithm.add_edge(1, vec![]);
    algorithm.add_edge(2, vec![]);
    algorithm.add_edge(3, vec![]);

    assert_eq!(
        algorithm.run(Some(0)).unwrap(),
        vec![0, i32::MAX, i32::MAX, i32::MAX]
    );
}

#[test]
fn test_run_run_from_different_start_node() {
    let mut algorithm = BellmanFordAlgorithm::new();
    algorithm.add_edge(0, vec![(1, 4), (2, 3)]);
    algorithm.add_edge(1, vec![(2, 1), (3, 2)]);
    algorithm.add_edge(2, vec![(3, 5)]);

    assert_eq!(algorithm.run(Some(1)).unwrap(), vec![i32::MAX, 0, 1, 2]);
}

#[test]
fn bellman_ford_test_run_disconnected_graph() {
    let mut algorithm = BellmanFordAlgorithm::new();
    algorithm.add_edge(0, vec![(1, 4)]);
    algorithm.add_edge(2, vec![(3, 5)]);

    assert_eq!(
        algorithm.run(Some(0)).unwrap(),
        vec![0, 4, i32::MAX, i32::MAX]
    );
}

#[test]
fn test_run_graph_with_negative_weight_cycle() {
    let mut algorithm = BellmanFordAlgorithm::new();
    algorithm.add_edges(vec![
        (0, vec![(1, 1)]),
        (1, vec![(2, -1)]),
        (2, vec![(0, -1)]),
    ]);

    assert_eq!(algorithm.run(Some(0)), Err(GraphError::NegativeWeightCycle));
}

#[test]
fn test_run_early_exit_no_updates() {
    let mut algorithm = BellmanFordAlgorithm::new();
    algorithm.add_edge(0, vec![(1, 2)]);
    algorithm.add_edge(1, vec![(2, 3)]);
    algorithm.add_edge(2, vec![(3, 4)]);
    algorithm.add_edge(3, vec![(4, 1)]);

    let result = algorithm.run(Some(0)).unwrap();

    assert_eq!(result[0], 0);
    assert_eq!(result[1], 2);
    assert_eq!(result[2], 5);
    assert_eq!(result[3], 9);
    assert_eq!(result[4], 10);
}

#[test]
fn test_run_early_exit_with_no_negative_cycle() {
    let mut algorithm = BellmanFordAlgorithm::new();
    algorithm.add_edge(0, vec![(1, 2)]);
    algorithm.add_edge(1, vec![(2, 3)]);
    algorithm.add_edge(2, vec![(3, -5)]);
    algorithm.add_edge(3, vec![(4, 1)]);

    let result = algorithm.run(Some(0)).unwrap();

    assert_eq!(result[0], 0);
    assert_eq!(result[1], 2);
    assert_eq!(result[2], 5);
    assert_eq!(result[3], 0);
    assert_eq!(result[4], 1);
}

#[test]
fn test_run_early_exit_with_negative_cycle() {
    let mut algorithm = BellmanFordAlgorithm::new();
    algorithm.add_edge(0, vec![(1, 1)]);
    algorithm.add_edge(1, vec![(2, -2)]);
    algorithm.add_edge(2, vec![(0, -1)]); // Negative cycle here

    assert_eq!(algorithm.run(Some(0)), Err(GraphError::NegativeWeightCycle));
}

#[test]
fn add_edge_appends_in_order_and_raises_the_count() {
    let mut algorithm = BellmanFordAlgorithm::new();
    algorithm.add_edge(2, vec![(5, -7), (1, 3)]);

    assert_eq!(algorithm.total_vertices, 6);
    assert_eq!(algorithm.edges.len(), 2);
    assert_eq!(algorithm.edges[0].source, 2);
    assert_eq!(algorithm.edges[0].destination, 5);
    assert_eq!(algorithm.edges[0].weight, -7);
    assert_eq!(algorithm.edges[1].source, 2);
    assert_eq!(algorithm.edges[1].destination, 1);
    assert_eq!(algorithm.edges[1].weight, 3);

    algorithm.add_edge(0, vec![(1, 1)]);
    assert_eq!(algorithm.total_vertices, 6);
    assert_eq!(algorithm.edges.len(), 3);
}

#[test]
fn add_edge_without_targets_registers_the_source_only() {
    let mut algorithm = BellmanFordAlgorithm::new();
    algorithm.add_edge(3, vec![]);

    assert_eq!(algorithm.total_vertices, 4);
    assert_eq!(algorithm.edges.len(), 0);
    assert_eq!(
        algorithm.run(Some(3)).unwrap(),
        vec![i32::MAX, i32::MAX, i32::MAX, 0]
    );
}

#[test]
fn add_edges_lists_every_node_in_order() {
    let mut algorithm = BellmanFordAlgorithm::new();
    algorithm.add_edges(vec![(0, vec![(1, 2), (2, 9)]), (4, vec![]), (1, vec![(2, 3)])]);

    assert_eq!(algorithm.total_vertices, 5);
    assert_eq!(algorithm.edges.len(), 3);
    assert_eq!(algorithm.edges[1].destination, 2);
    assert_eq!(algorithm.edges[1].weight, 9);
    assert_eq!(algorithm.edges[2].source, 1);
    assert_eq!(
        algorithm.run(Some(0)).unwrap(),
        vec![0, 2, 5, i32::MAX, i32::MAX]
    );
}

#[test]
fn negative_cycle_out_of_reach_is_no_error() {
    let mut algorithm = BellmanFordAlgorithm::new();
    algorithm.add_edge(0, vec![(1, 5)]);
    algorithm.add_edge(2, vec![(3, -4)]);
    algorithm.add_edge(3, vec![(2, 1)]);

    assert_eq!(
        algorithm.run(Some(0)).unwrap(),
        vec![0, 5, i32::MAX, i32::MAX]
    );
    assert_eq!(algorithm.run(Some(2)), Err(GraphError::NegativeWeightCycle));
}

#[test]
fn negative_self_loop_at_the_start_is_a_cycle() {
    let mut algorithm = BellmanFordAlgorithm::new();
    algorithm.add_edge(0, vec![(0, -1)]);

    assert_eq!(algorithm.run(Some(0)), Err(GraphError::NegativeWeightCycle));
}

#[test]
fn start_is_at_distance_zero() {
    let mut algorithm = BellmanFordAlgorithm::new();
    algorithm.add_edge(0, vec![(1, -3)]);
    algorithm.add_edge(1, vec![(2, 4)]);
    algorithm.add_edge(2, vec![(0, 0)]);

    for start in 0..3isize {
        let result = algorithm.run(Some(start)).unwrap();
        assert_eq!(result[start as usize], 0);
    }
}

#[test]
fn no_edge_improves_a_result() {
    let mut algorithm = BellmanFordAlgorithm::new();
    algorithm.add_edge(0, vec![(1, 4), (2, 3)]);
    algorithm.add_edge(1, vec![(2, -2), (3, 2)]);
    algorithm.add_edge(2, vec![(3, 3)]);
    algorithm.add_edge(4, vec![(0, 1)]);

    let result = algorithm.run(Some(0)).unwrap();
    for edge in &algorithm.edges {
        if result[edge.source] != i32::MAX {
            assert!(result[edge.destination] <= result[edge.source] + edge.weight);
        }
    }
    assert_eq!(result, vec![0, 4, 2, 5, i32::MAX]);
}

#[test]
fn running_twice_gives_the_same() {
    let mut algorithm = BellmanFordAlgorithm::new();
    algorithm.add_edge(0, vec![(1, 4), (2, 3)]);
    algorithm.add_edge(1, vec![(2, -2)]);

    let first = algorithm.run(Some(0));
    let second = algorithm.run(Some(0));
    assert_eq!(first, second);
    assert_eq!(first.unwrap(), vec![0, 4, 2]);
}
