use johnson_apsp::johnson::NEGATIVE_CYCLE_DETECTED;
use johnson_apsp::johnsons_algorithm;

fn sample_edges() -> Vec<(usize, usize, i32)> {
    vec![(0, 1, -5), (1, 2, 2), (2, 0, 4), (0, 2, 3)]
}

#[test]
fn sample_graph_has_the_expected_matrix() {
    let matrix = johnsons_algorithm(3, sample_edges()).unwrap();
    assert_eq!(
        matrix,
        vec![
            vec![Some(0), Some(-5), Some(-3)],
            vec![Some(6), Some(0), Some(2)],
            vec![Some(4), Some(-1), Some(0)],
        ]
    );
}

#[test]
fn sample_graph_pairwise_distances() {
    let matrix = johnsons_algorithm(3, sample_edges()).unwrap();
    assert_eq!(matrix[0][1], Some(-5));
    assert_eq!(matrix[0][2], Some(-3));
    assert_eq!(matrix[1][2], Some(2));
    assert_eq!(matrix[2][0], Some(4));
    assert_eq!(matrix[2][1], Some(-1));
    assert_eq!(matrix[1][0], Some(6));
    for v in 0..3 {
        assert_eq!(matrix[v][v], Some(0));
    }
}

#[test]
fn single_vertex_without_edges() {
    let matrix = johnsons_algorithm(1, vec![]).unwrap();
    assert_eq!(matrix, vec![vec![Some(0)]]);
}

#[test]
fn no_vertices_gives_an_empty_matrix() {
    let matrix = johnsons_algorithm(0, vec![]).unwrap();
    assert_eq!(matrix, Vec::<Vec<Option<i32>>>::new());
}

#[test]
fn disconnected_pair_is_unreachable() {
    let matrix = johnsons_algorithm(2, vec![]).unwrap();
    assert_eq!(matrix[0][1], None);
    assert_eq!(matrix[1][0], None);
    assert_eq!(matrix, vec![vec![Some(0), None], vec![None, Some(0)]]);
}

#[test]
fn one_way_edge_leaves_the_way_back_unreachable() {
    let matrix = johnsons_algorithm(2, vec![(0, 1, 7)]).unwrap();
    assert_eq!(matrix, vec![vec![Some(0), Some(7)], vec![None, Some(0)]]);
}

#[test]
fn two_vertex_negative_cycle_is_reported() {
    let result = johnsons_algorithm(2, vec![(0, 1, -1), (1, 0, -1)]);
    assert_eq!(result, Err("Negative Cycle Detected"));
    assert_eq!(result, Err(NEGATIVE_CYCLE_DETECTED));
}

#[test]
fn negative_self_loop_is_a_negative_cycle() {
    assert_eq!(johnsons_algorithm(1, vec![(0, 0, -1)]), Err(NEGATIVE_CYCLE_DETECTED));
}

#[test]
fn negative_cycle_away_from_other_vertices_is_still_reported() {
    let edges = vec![(0, 1, 4), (2, 3, 1), (3, 4, -2), (4, 2, 0)];
    assert_eq!(johnsons_algorithm(5, edges), Err(NEGATIVE_CYCLE_DETECTED));
}

#[test]
fn zero_weight_cycle_is_no_error() {
    let matrix = johnsons_algorithm(3, vec![(0, 1, -2), (1, 2, 1), (2, 0, 1)]).unwrap();
    assert_eq!(
        matrix,
        vec![
            vec![Some(0), Some(-2), Some(-1)],
            vec![Some(2), Some(0), Some(1)],
            vec![Some(1), Some(-1), Some(0)],
        ]
    );
}

#[test]
fn non_negative_self_loop_keeps_self_distance_zero() {
    let matrix = johnsons_algorithm(2, vec![(0, 0, 5), (0, 1, 1), (1, 1, 0)]).unwrap();
    assert_eq!(matrix, vec![vec![Some(0), Some(1)], vec![None, Some(0)]]);
}

#[test]
fn parallel_edges_count_separately_and_the_lightest_wins() {
    let matrix = johnsons_algorithm(2, vec![(0, 1, 9), (0, 1, 3), (0, 1, 6)]).unwrap();
    assert_eq!(matrix[0][1], Some(3));
}

#[test]
fn negative_edge_beats_a_direct_positive_one() {
    let edges = vec![(0, 1, 1), (0, 2, 10), (2, 1, -20), (1, 3, 2)];
    let matrix = johnsons_algorithm(4, edges).unwrap();
    assert_eq!(
        matrix,
        vec![
            vec![Some(0), Some(-10), Some(10), Some(-8)],
            vec![None, Some(0), None, Some(2)],
            vec![None, Some(-20), Some(0), Some(-18)],
            vec![None, None, None, Some(0)],
        ]
    );
}

#[test]
fn extreme_weights_that_fit_the_result_are_handled() {
    let edges = vec![(0, 1, i32::MAX), (2, 1, i32::MIN)];
    let matrix = johnsons_algorithm(3, edges).unwrap();
    assert_eq!(
        matrix,
        vec![
            vec![Some(0), Some(i32::MAX), None],
            vec![None, Some(0), None],
            vec![None, Some(i32::MIN), Some(0)],
        ]
    );
}

#[test]
fn self_distances_are_zero() {
    let edges = vec![(0, 1, 3), (1, 2, -4), (2, 3, 2), (3, 1, 2), (4, 0, 1), (0, 4, -1)];
    let matrix = johnsons_algorithm(5, edges).unwrap();
    for v in 0..5 {
        assert_eq!(matrix[v][v], Some(0));
    }
}

#[test]
fn triangle_inequality_holds_for_every_triple() {
    let edges = vec![
        (0, 1, 3),
        (1, 2, -4),
        (2, 3, 2),
        (3, 1, 2),
        (4, 0, 1),
        (0, 4, -1),
        (2, 5, 7),
        (5, 0, -3),
    ];
    let matrix = johnsons_algorithm(7, edges).unwrap();
    for u in 0..7 {
        for v in 0..7 {
            for w in 0..7 {
                if let (Some(a), Some(b)) = (matrix[u][v], matrix[v][w]) {
                    let c = matrix[u][w].unwrap();
                    assert!(c <= a + b);
                }
            }
        }
    }
    assert_eq!(matrix[6], vec![None, None, None, None, None, None, Some(0)]);
    assert_eq!(matrix[0][6], None);
}

#[test]
fn running_twice_gives_the_same_matrix() {
    let first = johnsons_algorithm(3, sample_edges());
    let second = johnsons_algorithm(3, sample_edges());
    assert_eq!(first, second);
    let cyclic = vec![(0, 1, -1), (1, 0, -1)];
    assert_eq!(johnsons_algorithm(2, cyclic.clone()), johnsons_algorithm(2, cyclic));
}

#[test]
fn order_of_the_edge_list_does_not_change_distances() {
    let mut edges = sample_edges();
    let forward = johnsons_algorithm(3, edges.clone()).unwrap();
    edges.reverse();
    let backward = johnsons_algorithm(3, edges).unwrap();
    assert_eq!(forward, backward);
}

#[test]
fn long_negative_chain() {
    let n = 50;
    let mut edges = Vec::new();
    for i in 0..n - 1 {
        edges.push((i, i + 1, -3));
    }
    let matrix = johnsons_algorithm(n, edges).unwrap();
    for u in 0..n {
        for v in 0..n {
            if v >= u {
                assert_eq!(matrix[u][v], Some(-3 * (v - u) as i32));
            } else {
                assert_eq!(matrix[u][v], None);
            }
        }
    }
}
