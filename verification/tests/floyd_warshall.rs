use graph_algorithms::{FloydWarshallAlgorithm, GraphAlgorithm};

#[test]
fn floyd_warshall_test_new() {
    let algorithm = FloydWarshallAlgorithm::new();
    let algorithm_default = FloydWarshallAlgorithm::default();

    assert_eq!(algorithm.edges.len(), 0);
    assert_eq!(algorithm_default.edges.len(), 0);
}

#[test]
fn floyd_warshall_test_run() {
    let mut algorithm = FloydWarshallAlgorithm::new();

    algorithm.set_edge(0, 1, 4);
    algorithm.set_edge(1, 2, 1);
    algorithm.set_edge(0, 2, 7);
    algorithm.set_edge(2, 3, 3);
    algorithm.set_edge(3, 4, 2);
    algorithm.set_edge(4, 5, 1);
    algorithm.set_edge(5, 6, 6);
    algorithm.set_edge(0, 6, 15);
    algorithm.set_edge(1, 4, 8);
    algorithm.set_edge(2, 5, 12);
    algorithm.set_edge(3, 6, 7);
    algorithm.set_edge(4, 2, 5);
    algorithm.set_edge(5, 0, 10);
    algorithm.set_edge(6, 1, 11);

    let result = algorithm.run(None).unwrap();

    assert_eq!(result[0][0], 0);
    assert_eq!(result[0][1], 4);
    assert_eq!(result[0][2], 5);
    assert_eq!(result[0][3], 8);
    assert_eq!(result[0][4], 10);
    assert_eq!(result[0][5], 11);
    assert_eq!(result[0][6], 15);
    assert_eq!(result[1][3], 4);
    assert_eq!(result[1][4], 6);
    assert_eq!(result[2][5], 6);
    assert_eq!(result[3][5], 3);
    assert_eq!(result[4][6], 7);
}

#[test]
fn test_run_single_node() {
    let mut algorithm = FloydWarshallAlgorithm::new();
    algorithm.set_edge(0, 0, 0);

    let result = algorithm.run(None).unwrap();

    assert_eq!(result[0][0], 0);
}

#[test]
fn test_run_two_nodes_one_edge() {
    let mut algorithm = FloydWarshallAlgorithm::new();
    algorithm.set_edge(0, 1, 5);

    let result = algorithm.run(None).unwrap();

    assert_eq!(result[0][1], 5);
    assert_eq!(result[1][0], i32::MAX);
}

#[test]
fn test_run_negative_weights_without_cycle() {
    let mut algorithm = FloydWarshallAlgorithm::new();
    algorithm.set_edges(vec![
        (0, vec![(1, -2), (2, 4)]),
        (1, vec![(2, 1)]),
        (0, vec![(2, 4)]),
    ]);

    let result = algorithm.run(None).unwrap();

    assert_eq!(result[0][1], -2);
    assert_eq!(result[0][2], -1);
}

#[test]
fn test_run_complete_graph() {
    let mut algorithm = FloydWarshallAlgorithm::new();
    algorithm.set_edge(0, 1, 1);
    algorithm.set_edge(0, 2, 2);
    algorithm.set_edge(1, 2, 1);
    algorithm.set_edge(1, 0, 3);
    algorithm.set_edge(2, 0, 4);
    algorithm.set_edge(2, 1, 5);

    let result = algorithm.run(None).unwrap();

    assert_eq!(result[0][1], 1);
    assert_eq!(result[0][2], 2);
    assert_eq!(result[1][2], 1);
}

#[test]
fn test_run_disconnected_nodes() {
    let mut algorithm = FloydWarshallAlgorithm::new();
    algorithm.set_edge(0, 1, 3);
    algorithm.set_edge(1, 2, 4);
    algorithm.set_total_nodes(4);

    let result = algorithm.run(None).unwrap();

    assert_eq!(result[0][3], i32::MAX);
    assert_eq!(result[3][3], 0);
}

#[test]
fn test_run_zero_weight_cycle() {
    let mut algorithm = FloydWarshallAlgorithm::new();
    algorithm.set_edge(0, 1, 2);
    algorithm.set_edge(1, 2, -3);
    algorithm.set_edge(2, 0, 1);

    let result = algorithm.run(None).unwrap();

    assert_eq!(result[0][1], 2);
    assert_eq!(result[1][2], -3);
    assert_eq!(result[2][0], 1);
    assert_eq!(result[0][2], -1);
}

#[test]
fn set_edge_appends_and_raises_the_count() {
    let mut algorithm = FloydWarshallAlgorithm::new();
    algorithm.set_edge(1, 4, -2);
    assert_eq!(algorithm.total_nodes, 5);
    assert_eq!(algorithm.edges, vec![(1, 4, -2)]);

    algorithm.set_edge(6, 0, 3);
    assert_eq!(algorithm.total_nodes, 7);
    assert_eq!(algorithm.edges, vec![(1, 4, -2), (6, 0, 3)]);

    algorithm.set_edge(2, 3, 1);
    assert_eq!(algorithm.total_nodes, 7);
}

#[test]
fn set_edges_adds_nothing_for_a_node_without_targets() {
    let mut algorithm = FloydWarshallAlgorithm::new();
    algorithm.set_edges(vec![(0, vec![(1, 2), (2, 5)]), (9, vec![]), (2, vec![(1, -1)])]);

    assert_eq!(algorithm.total_nodes, 3);
    assert_eq!(algorithm.edges, vec![(0, 1, 2), (0, 2, 5), (2, 1, -1)]);
}

#[test]
fn set_total_nodes_only_raises_the_count() {
    let mut algorithm = FloydWarshallAlgorithm::new();
    algorithm.set_total_nodes(5);
    assert_eq!(algorithm.total_nodes, 5);
    algorithm.set_total_nodes(3);
    assert_eq!(algorithm.total_nodes, 5);
    algorithm.set_total_nodes(8);
    assert_eq!(algorithm.total_nodes, 8);
    assert_eq!(algorithm.edges.len(), 0);
}

#[test]
fn the_whole_matrix_of_a_small_graph() {
    let mut algorithm = FloydWarshallAlgorithm::new();
    algorithm.set_edge(0, 1, 1);
    algorithm.set_edge(0, 2, 2);
    algorithm.set_edge(1, 2, 1);
    algorithm.set_edge(1, 0, 3);
    algorithm.set_edge(2, 0, 4);
    algorithm.set_edge(2, 1, 5);

    assert_eq!(
        algorithm.run(None).unwrap(),
        vec![vec![0, 1, 2], vec![3, 0, 1], vec![4, 5, 0]]
    );
}

#[test]
fn a_start_node_is_accepted_and_ignored() {
    let mut algorithm = FloydWarshallAlgorithm::new();
    algorithm.set_edge(0, 1, 5);

    assert_eq!(algorithm.run(Some(1)), algorithm.run(None));
    assert_eq!(
        algorithm.run(Some(1)).unwrap(),
        vec![vec![0, 5], vec![i32::MAX, 0]]
    );
}

#[test]
fn an_empty_graph_gives_an_empty_matrix() {
    let algorithm = FloydWarshallAlgorithm::new();
    assert_eq!(algorithm.run(None).unwrap(), Vec::<Vec<i32>>::new());
}

#[test]
fn the_last_edge_between_two_nodes_counts() {
    let mut algorithm = FloydWarshallAlgorithm::new();
    algorithm.set_edge(0, 1, 2);
    algorithm.set_edge(0, 1, 7);

    assert_eq!(
        algorithm.run(None).unwrap(),
        vec![vec![0, 7], vec![i32::MAX, 0]]
    );
}

#[test]
fn an_edge_from_a_node_to_itself_does_not_count() {
    let mut algorithm = FloydWarshallAlgorithm::new();
    algorithm.set_edge(0, 0, 9);
    algorithm.set_edge(0, 1, 1);
    algorithm.set_edge(1, 1, -4);

    assert_eq!(
        algorithm.run(None).unwrap(),
        vec![vec![0, 1], vec![i32::MAX, 0]]
    );
}

#[test]
fn the_diagonal_is_zero_without_negative_cycles() {
    let mut algorithm = FloydWarshallAlgorithm::new();
    algorithm.set_edge(0, 1, 2);
    algorithm.set_edge(1, 2, -3);
    algorithm.set_edge(2, 0, 1);
    algorithm.set_total_nodes(5);

    let result = algorithm.run(None).unwrap();
    assert_eq!(result.len(), 5);
    for (node, row) in result.iter().enumerate() {
        assert_eq!(row.len(), 5);
        assert_eq!(row[node], 0);
    }
    assert_eq!(result[4], vec![i32::MAX, i32::MAX, i32::MAX, i32::MAX, 0]);
}

#[test]
fn floyd_warshall_running_twice_gives_the_same() {
    let mut algorithm = FloydWarshallAlgorithm::new();
    algorithm.set_edge(0, 1, 4);
    algorithm.set_edge(1, 2, -1);

    assert_eq!(algorithm.run(None), algorithm.run(None));
}

#[test]
fn a_negative_cycle_drives_its_diagonal_below_zero() {
    let mut algorithm = FloydWarshallAlgorithm::new();
    algorithm.set_edge(0, 1, 1);
    algorithm.set_edge(1, 0, -3);

    assert_eq!(
        algorithm.run(None).unwrap(),
        vec![vec![-2, -1], vec![-5, -4]]
    );
}

#[test]
fn a_node_off_every_negative_cycle_keeps_a_zero_diagonal() {
    let mut algorithm = FloydWarshallAlgorithm::new();
    algorithm.set_edge(0, 1, 1);
    algorithm.set_edge(1, 0, -3);
    algorithm.set_edge(3, 0, 1);
    algorithm.set_total_nodes(4);

    let result = algorithm.run(None).unwrap();
    assert!(result[0][0] < 0);
    assert!(result[1][1] < 0);
    assert_eq!(result[2][2], 0);
    assert_eq!(result[3][3], 0);
    assert_eq!(result[2], vec![i32::MAX, i32::MAX, 0, i32::MAX]);
    assert_eq!(result[0][2], i32::MAX);
    assert_eq!(result[0][3], i32::MAX);
}
