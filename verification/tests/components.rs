use johnson_apsp::adjacency::{build_adjacency, Edge};
use johnson_apsp::potential::bellman_ford;
use johnson_apsp::queue::{MinQueue, State};
use johnson_apsp::reweight::reweight;
use johnson_apsp::search::dijkstra;

fn sample_adjacency() -> Vec<Vec<Edge>> {
    build_adjacency(3, &vec![(0, 1, -5), (1, 2, 2), (2, 0, 4), (0, 2, 3)])
}

#[test]
fn adjacency_lists_keep_the_order_of_the_edge_list() {
    let adj = sample_adjacency();
    assert_eq!(
        adj,
        vec![
            vec![Edge { to: 1, weight: -5 }, Edge { to: 2, weight: 3 }],
            vec![Edge { to: 2, weight: 2 }],
            vec![Edge { to: 0, weight: 4 }],
        ]
    );
}

#[test]
fn adjacency_of_no_edges_has_one_empty_list_per_vertex() {
    let adj = build_adjacency(4, &vec![]);
    assert_eq!(adj, vec![Vec::<Edge>::new(); 4]);
    assert_eq!(build_adjacency(0, &vec![]), Vec::<Vec<Edge>>::new());
}

#[test]
fn adjacency_keeps_parallel_edges_apart() {
    let adj = build_adjacency(2, &vec![(0, 1, 4), (0, 1, 4), (0, 1, -2)]);
    assert_eq!(
        adj[0],
        vec![Edge { to: 1, weight: 4 }, Edge { to: 1, weight: 4 }, Edge { to: 1, weight: -2 }]
    );
    assert_eq!(adj[1], Vec::<Edge>::new());
}

#[test]
fn potentials_of_the_sample_graph() {
    assert_eq!(bellman_ford(&sample_adjacency(), 3), Some(vec![0, -5, -3]));
}

#[test]
fn potentials_without_negative_edges_are_zero() {
    let adj = build_adjacency(3, &vec![(0, 1, 2), (1, 2, 0), (2, 0, 9)]);
    assert_eq!(bellman_ford(&adj, 3), Some(vec![0, 0, 0]));
}

#[test]
fn potentials_of_no_vertices() {
    assert_eq!(bellman_ford(&Vec::new(), 0), Some(vec![]));
}

#[test]
fn potentials_need_every_round_on_a_chain_listed_backwards() {
    // Each round can carry the improvement one vertex further only.
    let adj = build_adjacency(4, &vec![(2, 3, -1), (1, 2, -1), (0, 1, -1)]);
    assert_eq!(bellman_ford(&adj, 4), Some(vec![0, -1, -2, -3]));
    let adj = build_adjacency(4, &vec![(3, 2, -1), (2, 1, -1), (1, 0, -1)]);
    assert_eq!(bellman_ford(&adj, 4), Some(vec![-3, -2, -1, 0]));
}

#[test]
fn negative_cycle_gives_no_potentials() {
    let adj = build_adjacency(2, &vec![(0, 1, -1), (1, 0, -1)]);
    assert_eq!(bellman_ford(&adj, 2), None);
    let adj = build_adjacency(3, &vec![(0, 1, 1), (1, 2, 1), (2, 0, -3)]);
    assert_eq!(bellman_ford(&adj, 3), None);
}

#[test]
fn negative_cycle_of_huge_weights_gives_no_potentials() {
    let adj = vec![
        vec![Edge { to: 1, weight: i64::MIN }],
        vec![Edge { to: 0, weight: i64::MIN }],
    ];
    assert_eq!(bellman_ford(&adj, 2), None);
}

#[test]
fn reweighting_follows_the_formula() {
    let adj = sample_adjacency();
    let h = vec![0, -5, -3];
    assert_eq!(
        reweight(&adj, &h),
        vec![
            vec![Edge { to: 1, weight: 0 }, Edge { to: 2, weight: 6 }],
            vec![Edge { to: 2, weight: 0 }],
            vec![Edge { to: 0, weight: 1 }],
        ]
    );
}

#[test]
fn reweighting_with_any_potentials_is_not_the_identity() {
    let adj = vec![vec![Edge { to: 1, weight: 10 }], vec![Edge { to: 0, weight: -4 }]];
    let out = reweight(&adj, &vec![7, -2]);
    assert_eq!(out, vec![vec![Edge { to: 1, weight: 19 }], vec![Edge { to: 0, weight: -13 }]]);
}

#[test]
fn reweighted_weights_are_never_negative_after_potentials() {
    let edge_lists: Vec<(usize, Vec<(usize, usize, i32)>)> = vec![
        (3, vec![(0, 1, -5), (1, 2, 2), (2, 0, 4), (0, 2, 3)]),
        (4, vec![(0, 1, 1), (0, 2, 10), (2, 1, -20), (1, 3, 2)]),
        (3, vec![(0, 1, -2), (1, 2, 1), (2, 0, 1)]),
        (3, vec![(0, 1, i32::MAX), (2, 1, i32::MIN)]),
    ];
    for (n, edges) in edge_lists {
        let adj = build_adjacency(n, &edges);
        let h = bellman_ford(&adj, n).unwrap();
        for row in reweight(&adj, &h) {
            for edge in row {
                assert!(edge.weight >= 0);
            }
        }
    }
}

#[test]
fn reweighting_can_exceed_the_range_of_the_input_weights() {
    let adj = build_adjacency(3, &vec![(0, 1, i32::MAX), (2, 1, i32::MIN)]);
    let h = bellman_ford(&adj, 3).unwrap();
    assert_eq!(h, vec![0, i32::MIN as i64, 0]);
    let out = reweight(&adj, &h);
    assert_eq!(out[0], vec![Edge { to: 1, weight: i32::MAX as i64 - i32::MIN as i64 }]);
    assert_eq!(out[2], vec![Edge { to: 1, weight: 0 }]);
}

#[test]
fn search_finds_shortest_distances() {
    let adj = vec![
        vec![Edge { to: 1, weight: 7 }, Edge { to: 2, weight: 9 }, Edge { to: 5, weight: 14 }],
        vec![Edge { to: 2, weight: 10 }, Edge { to: 3, weight: 15 }],
        vec![Edge { to: 3, weight: 11 }, Edge { to: 5, weight: 2 }],
        vec![Edge { to: 4, weight: 6 }],
        vec![],
        vec![Edge { to: 4, weight: 9 }],
        vec![Edge { to: 0, weight: 1 }],
    ];
    assert_eq!(
        dijkstra(&adj, 0),
        vec![Some(0), Some(7), Some(9), Some(20), Some(20), Some(11), None]
    );
    assert_eq!(
        dijkstra(&adj, 6),
        vec![Some(1), Some(8), Some(10), Some(21), Some(21), Some(12), Some(0)]
    );
    assert_eq!(dijkstra(&adj, 4), vec![None, None, None, None, Some(0), None, None]);
}

#[test]
fn search_replaces_a_recorded_distance_by_a_better_one() {
    // Vertex 2 is first recorded at 10 and later improved to 3; the state
    // queued with cost 10 is stale when it is popped.
    let adj = vec![
        vec![Edge { to: 2, weight: 10 }, Edge { to: 1, weight: 1 }],
        vec![Edge { to: 2, weight: 2 }],
        vec![Edge { to: 3, weight: 1 }],
        vec![],
    ];
    assert_eq!(dijkstra(&adj, 0), vec![Some(0), Some(1), Some(3), Some(4)]);
}

#[test]
fn search_with_zero_weights_and_ties() {
    let adj = vec![
        vec![Edge { to: 1, weight: 0 }, Edge { to: 2, weight: 0 }],
        vec![Edge { to: 3, weight: 5 }],
        vec![Edge { to: 3, weight: 5 }],
        vec![Edge { to: 0, weight: 0 }],
    ];
    assert_eq!(dijkstra(&adj, 0), vec![Some(0), Some(0), Some(0), Some(5)]);
    assert_eq!(dijkstra(&adj, 3), vec![Some(0), Some(0), Some(0), Some(0)]);
}

#[test]
fn search_on_the_reweighted_sample_graph() {
    let adj = sample_adjacency();
    let h = bellman_ford(&adj, 3).unwrap();
    let shifted = reweight(&adj, &h);
    assert_eq!(dijkstra(&shifted, 0), vec![Some(0), Some(0), Some(0)]);
    assert_eq!(dijkstra(&shifted, 1), vec![Some(1), Some(0), Some(0)]);
    assert_eq!(dijkstra(&shifted, 2), vec![Some(1), Some(1), Some(0)]);
}

#[test]
fn queue_pops_in_order_of_cost() {
    let mut queue = MinQueue::new();
    for cost in [5, 3, 8, 1, 9, 2, 7, 3, 0, 6] {
        queue.push(State { cost, position: 0 });
    }
    assert_eq!(queue.len(), 10);
    let mut popped = Vec::new();
    while let Some(state) = queue.pop() {
        popped.push(state.cost);
    }
    assert_eq!(popped, vec![0, 1, 2, 3, 3, 5, 6, 7, 8, 9]);
    assert!(queue.is_empty());
}

#[test]
fn queue_breaks_ties_by_the_lower_vertex_index() {
    let mut queue = MinQueue::new();
    queue.push(State { cost: 4, position: 9 });
    queue.push(State { cost: 4, position: 2 });
    queue.push(State { cost: 1, position: 7 });
    queue.push(State { cost: 4, position: 5 });
    queue.push(State { cost: 1, position: 3 });
    assert_eq!(queue.pop(), Some(State { cost: 1, position: 3 }));
    assert_eq!(queue.pop(), Some(State { cost: 1, position: 7 }));
    assert_eq!(queue.pop(), Some(State { cost: 4, position: 2 }));
    assert_eq!(queue.pop(), Some(State { cost: 4, position: 5 }));
    assert_eq!(queue.pop(), Some(State { cost: 4, position: 9 }));
    assert_eq!(queue.pop(), None);
}

#[test]
fn queue_pop_on_empty_gives_nothing() {
    let mut queue = MinQueue::new();
    assert!(queue.is_empty());
    assert_eq!(queue.len(), 0);
    assert_eq!(queue.pop(), None);
    queue.push(State { cost: -3, position: 1 });
    assert!(!queue.is_empty());
    assert_eq!(queue.pop(), Some(State { cost: -3, position: 1 }));
    assert_eq!(queue.pop(), None);
}

#[test]
fn queue_keeps_equal_states_as_often_as_they_were_pushed() {
    let mut queue = MinQueue::new();
    let state = State { cost: 2, position: 2 };
    queue.push(state);
    queue.push(state);
    queue.push(State { cost: 1, position: 0 });
    assert_eq!(queue.len(), 3);
    assert_eq!(queue.pop(), Some(State { cost: 1, position: 0 }));
    assert_eq!(queue.pop(), Some(state));
    assert_eq!(queue.pop(), Some(state));
    assert_eq!(queue.len(), 0);
}

#[test]
fn state_order_is_by_cost_then_by_vertex() {
    let a = State { cost: 1, position: 5 };
    let b = State { cost: 2, position: 0 };
    let c = State { cost: 2, position: 3 };
    assert!(a.goes_before(&b));
    assert!(!b.goes_before(&a));
    assert!(b.goes_before(&c));
    assert!(!c.goes_before(&b));
    assert!(c.goes_before(&c));
}
