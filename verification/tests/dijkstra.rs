use graph_algorithms::{DijkstraAlgorithm, GraphAlgorithm, GraphError};

#[test]
fn dijkstra_test_new() {
    let algorithm = DijkstraAlgorithm::new();
    let algorithm_default = DijkstraAlgorithm::default();

    assert_eq!(algorithm.graph.len(), 0);
    assert_eq!(algorithm_default.graph.len(), 0);
}

#[test]
fn dijkstra_test_missing_start_node() {
    let algorithm = DijkstraAlgorithm::new();

    assert_eq!(algorithm.run(None), Err(GraphError::MissingStartNode));
}

#[test]
fn dijkstra_test_run() {
    let mut algorithm = DijkstraAlgorithm::new();
    let nodes = vec![
        (0, vec![(1, 1), (2, 4), (3, 7)]),
        (1, vec![(2, 2), (3, 5), (4, 12)]),
        (2, vec![(3, 1), (4, 3)]),
        (3, vec![(4, 2), (5, 8)]),
        (4, vec![(5, 1), (6, 5)]),
        (5, vec![(6, 2), (7, 3)]),
        (6, vec![(7, 1), (8, 4)]),
        (7, vec![(8, 2), (9, 6)]),
        (8, vec![(9, 1)]),
        (9, vec![(10, 2), (11, 3)]),
        (10, vec![(11, 1), (12, 4)]),
        (11, vec![(12, 2), (13, 6)]),
        (12, vec![(13, 1), (14, 5)]),
        (13, vec![(14, 2), (15, 3)]),
        (14, vec![(15, 1), (16, 4)]),
        (15, vec![(16, 2), (17, 6)]),
        (16, vec![(17, 1), (18, 5)]),
        (17, vec![(18, 2), (19, 3)]),
        (18, vec![(19, 1)]),
        (19, vec![]),
    ];
    algorithm.set_nodes(nodes);

    assert_eq!(
        algorithm.run(Some(0)).unwrap(),
        vec![0, 1, 3, 4, 6, 7, 9, 10, 12, 13, 15, 16, 18, 19, 21, 22, 24, 25, 27, 28]
    );
}

#[test]
fn dijkstra_test_run_single_node_graph() {
    let mut algorithm = DijkstraAlgorithm::new();
    algorithm.set_nodes(vec![(0, vec![])]);

    assert_eq!(algorithm.run(Some(0)).unwrap(), vec![0]);
}

#[test]
fn test_run_two_node_graph() {
    let mut algorithm = DijkstraAlgorithm::new();
    algorithm.set_node(0, vec![(1, 1)]);
    algorithm.set_node(1, vec![]);

    assert_eq!(algorithm.run(Some(0)).unwrap(), vec![0, 1]);
}

#[test]
fn dijkstra_test_run_disconnected_graph() {
    let mut algorithm = DijkstraAlgorithm::new();
    algorithm.set_nodes(vec![(0, vec![]), (1, vec![])]);

    assert_eq!(algorithm.run(Some(0)).unwrap(), vec![0, usize::MAX]);
}

#[test]
fn test_run_simple_path() {
    let mut algorithm = DijkstraAlgorithm::new();
    algorithm.set_nodes(vec![(0, vec![(1, 1)]), (1, vec![(2, 1)]), (2, vec![])]);

    assert_eq!(algorithm.run(Some(0)).unwrap(), vec![0, 1, 2]);
}

#[test]
fn test_run_multiple_paths() {
    let mut algorithm = DijkstraAlgorithm::new();
    algorithm.set_nodes(vec![
        (0, vec![(1, 1), (2, 4)]),
        (1, vec![(2, 2)]),
        (2, vec![]),
    ]);

    assert_eq!(algorithm.run(Some(0)).unwrap(), vec![0, 1, 3]);
}

#[test]
fn test_run_graph_with_cycle() {
    let mut algorithm = DijkstraAlgorithm::new();
    algorithm.set_nodes(vec![
        (0, vec![(1, 1)]),
        (1, vec![(2, 1)]),
        (2, vec![(0, 1)]),
    ]);

    assert_eq!(algorithm.run(Some(0)).unwrap(), vec![0, 1, 2]);
}

#[test]
fn test_run_graph_with_multiple_shortest_paths() {
    let mut algorithm = DijkstraAlgorithm::new();
    algorithm.set_nodes(vec![
        (0, vec![(1, 1), (2, 1)]),
        (1, vec![(2, 1)]),
        (2, vec![]),
    ]);

    assert_eq!(algorithm.run(Some(0)).unwrap(), vec![0, 1, 1]);
}

#[test]
fn test_run_large_weights() {
    let mut algorithm = DijkstraAlgorithm::new();
    algorithm.set_nodes(vec![
        (0, vec![(1, 1000)]),
        (1, vec![(2, 1000)]),
        (2, vec![]),
    ]);

    assert_eq!(algorithm.run(Some(0)).unwrap(), vec![0, 1000, 2000]);
}

#[test]
fn test_run_no_edges() {
    let mut algorithm = DijkstraAlgorithm::new();
    algorithm.set_nodes(vec![(0, vec![]), (1, vec![]), (2, vec![])]);

    assert_eq!(
        algorithm.run(Some(0)).unwrap(),
        vec![0, usize::MAX, usize::MAX]
    );
}

#[test]
fn test_run_multiple_edges_to_same_node() {
    let mut algorithm = DijkstraAlgorithm::new();
    algorithm.set_nodes(vec![
        (0, vec![(1, 1), (1, 2)]),
        (1, vec![(2, 1)]),
        (2, vec![]),
    ]);

    assert_eq!(algorithm.run(Some(0)).unwrap(), vec![0, 1, 2]);
}

#[test]
fn test_run_graph_with_isolated_node() {
    let mut algorithm = DijkstraAlgorithm::new();
    algorithm.set_nodes(vec![
        (0, vec![(1, 1)]),
        (1, vec![(2, 1)]),
        (2, vec![]),
        (3, vec![]),
    ]);

    assert_eq!(algorithm.run(Some(0)).unwrap(), vec![0, 1, 2, usize::MAX]);
}

#[test]
fn set_node_replaces_what_the_node_had() {
    let mut algorithm = DijkstraAlgorithm::new();
    algorithm.set_node(0, vec![(1, 9)]);
    algorithm.set_node(1, vec![]);
    algorithm.set_node(0, vec![(1, 2)]);

    assert_eq!(algorithm.graph.len(), 2);
    assert_eq!(algorithm.graph.get(&0), Some(&vec![(1, 2)]));
    assert_eq!(algorithm.run(Some(0)).unwrap(), vec![0, 2]);
}

#[test]
fn set_nodes_lets_the_last_entry_for_a_node_win() {
    let mut algorithm = DijkstraAlgorithm::new();
    algorithm.set_nodes(vec![(0, vec![(1, 9)]), (1, vec![]), (0, vec![(1, 4)])]);

    assert_eq!(algorithm.graph.len(), 2);
    assert_eq!(algorithm.graph.get(&0), Some(&vec![(1, 4)]));
    assert_eq!(algorithm.graph.get(&1), Some(&vec![]));
    assert_eq!(algorithm.run(Some(0)).unwrap(), vec![0, 4]);
}

#[test]
fn result_has_one_entry_for_each_registered_node() {
    // Node 2 is reached but never registered: the result has two entries.
    let mut algorithm = DijkstraAlgorithm::new();
    algorithm.set_node(0, vec![(1, 1)]);
    algorithm.set_node(1, vec![(2, 1)]);

    assert_eq!(algorithm.run(Some(0)).unwrap(), vec![0, 1]);
}

#[test]
fn start_outside_the_registered_nodes() {
    let algorithm = DijkstraAlgorithm::new();
    assert_eq!(algorithm.run(Some(5)).unwrap(), Vec::<usize>::new());

    let mut algorithm = DijkstraAlgorithm::new();
    algorithm.set_node(0, vec![(1, 1)]);
    algorithm.set_node(1, vec![]);
    assert_eq!(
        algorithm.run(Some(7)).unwrap(),
        vec![usize::MAX, usize::MAX]
    );
}

#[test]
fn a_sum_too_large_to_record_is_left_out() {
    let mut algorithm = DijkstraAlgorithm::new();
    algorithm.set_nodes(vec![
        (0, vec![(1, usize::MAX - 1), (3, 5)]),
        (1, vec![(2, 2)]),
        (2, vec![]),
        (3, vec![]),
    ]);

    assert_eq!(
        algorithm.run(Some(0)).unwrap(),
        vec![0, usize::MAX - 1, usize::MAX, 5]
    );
}

#[test]
fn a_later_cheaper_way_replaces_an_earlier_one() {
    let mut algorithm = DijkstraAlgorithm::new();
    algorithm.set_nodes(vec![
        (0, vec![(3, 10), (1, 1)]),
        (1, vec![(2, 1)]),
        (2, vec![(3, 1)]),
        (3, vec![(4, 1)]),
        (4, vec![]),
    ]);

    assert_eq!(algorithm.run(Some(0)).unwrap(), vec![0, 1, 2, 3, 4]);
}

#[test]
fn dijkstra_start_is_at_distance_zero() {
    let mut algorithm = DijkstraAlgorithm::new();
    algorithm.set_nodes(vec![
        (0, vec![(1, 1)]),
        (1, vec![(2, 1)]),
        (2, vec![(0, 0)]),
    ]);

    for start in 0..3usize {
        assert_eq!(algorithm.run(Some(start)).unwrap()[start], 0);
    }
}

#[test]
fn dijkstra_no_edge_improves_a_result() {
    let mut algorithm = DijkstraAlgorithm::new();
    let nodes = vec![
        (0, vec![(1, 4), (2, 3)]),
        (1, vec![(2, 1), (3, 2)]),
        (2, vec![(3, 5)]),
        (3, vec![]),
    ];
    algorithm.set_nodes(nodes.clone());

    let result = algorithm.run(Some(0)).unwrap();
    assert_eq!(result, vec![0, 4, 3, 6]);
    for (source, edges) in nodes {
        for (target, weight) in edges {
            if result[source] != usize::MAX {
                assert!(result[target] <= result[source] + weight);
            }
        }
    }
}

#[test]
fn dijkstra_running_twice_gives_the_same() {
    let mut algorithm = DijkstraAlgorithm::new();
    algorithm.set_nodes(vec![
        (0, vec![(1, 1), (2, 4)]),
        (1, vec![(2, 2)]),
        (2, vec![]),
    ]);

    let first = algorithm.run(Some(0));
    let second = algorithm.run(Some(0));
    assert_eq!(first, second);
}
