//! All-pairs shortest distances: potentials, reweighting, one search per
//! vertex, and the distances shifted back to the weights as they were given.

use crate::adjacency::{build_adjacency, edge_link, edge_list_graph, edges_in_range, graph_of,
    lemma_graph_of_well_formed, nonnegative_weights, weights_in_i32, well_formed_adjacency, Edge};
use crate::graph::{has_negative_cycle, is_distance, is_walk, lemma_empty_walk, lemma_walk_ends,
    reachable, walk_weight, Digraph, Link};
use crate::matrix::{distances_fit, is_distance_matrix, is_entry, lemma_bounded_links_fit,
    lemma_distance_matrix_unique, matrix_of};
use crate::potential::{bellman_ford, is_potential};
use crate::reweight::{is_reweighting, lemma_distance_unshifted, lemma_reachable_shifted,
    lemma_reweighting_nonnegative, reweight, reweighted, shifted};
use crate::search::{candidates_representable, dijkstra, is_distance_row};
use vstd::prelude::*;

verus! {

/// The message of the one error: the graph has a cycle of negative weight,
/// so that distances along it have no least value.
pub const NEGATIVE_CYCLE_DETECTED: &'static str = "Negative Cycle Detected";

/// What a run hands back, as plain values.
pub open spec fn outcome_of(result: Result<Vec<Vec<Option<i32>>>, &'static str>) -> Result<
    Seq<Seq<Option<i32>>>,
    Seq<char>,
> {
    match result {
        Ok(m) => Ok(matrix_of(m@)),
        Err(message) => Err(message@),
    }
}

/// The outcome owed for `g`: the error exactly when `g` has a negative
/// cycle, and otherwise the distance matrix.
pub open spec fn is_apsp_outcome(
    g: Digraph,
    outcome: Result<Seq<Seq<Option<i32>>>, Seq<char>>,
) -> bool {
    match outcome {
        Ok(m) => !has_negative_cycle(g) && is_distance_matrix(g, m),
        Err(message) => has_negative_cycle(g) && message == NEGATIVE_CYCLE_DETECTED@,
    }
}

/// Running twice gives the same: a graph has exactly one outcome.
pub proof fn lemma_outcome_unique(
    g: Digraph,
    first: Result<Seq<Seq<Option<i32>>>, Seq<char>>,
    second: Result<Seq<Seq<Option<i32>>>, Seq<char>>,
)
    requires
        is_apsp_outcome(g, first),
        is_apsp_outcome(g, second),
    ensures
        first == second,
{
    if first is Ok {
        lemma_distance_matrix_unique(g, first->Ok_0, second->Ok_0);
    }
}

/// Where `num_nodes` edges of the greatest magnitude `bound` stay within an
/// `i32`, every shortest distance of the edge list's graph does.
pub proof fn lemma_small_weights_fit(num_nodes: nat, edges: Seq<(usize, usize, i32)>, bound: int)
    requires
        edges_in_range(num_nodes, edges),
        forall|i: int| 0 <= i < edges.len() ==> -bound <= (#[trigger] edges[i]).2 <= bound,
        num_nodes * bound <= i32::MAX,
    ensures
        distances_fit(edge_list_graph(num_nodes, edges)),
{
    let g = edge_list_graph(num_nodes, edges);
    assert forall|l: Link| #[trigger] g.links.contains(l) implies g.has_vertex(l.from)
        && g.has_vertex(l.to) && -bound <= l.weight <= bound by {
        let i = choose|i: int| 0 <= i < edges.len() && edge_link(#[trigger] edges[i]) == l;
    }
    lemma_bounded_links_fit(g, bound);
}

/// Every potential is an `i32` value and none is above zero.
spec fn potentials_in_i32(h: Seq<i64>) -> bool {
    forall|v: int| 0 <= v < h.len() ==> i32::MIN <= #[trigger] h[v] <= 0
}

/// Where all distances fit in an `i32`, so do all potentials.
proof fn lemma_potentials_fit(g: Digraph)
    requires
        g.well_formed(),
        distances_fit(g),
    ensures
        forall|v: int, x: int| #[trigger] is_potential(g, v, x) ==> i32::MIN <= x <= 0,
{
    assert forall|v: int, x: int| #[trigger] is_potential(g, v, x) implies i32::MIN <= x <= 0 by {
        let (p, a) = choose|p: Seq<Link>, a: int| #[trigger]
            is_walk(g, p, a, v) && walk_weight(p) == x;
        lemma_walk_ends(g, p, a, v);
        lemma_empty_walk(g, v);
        assert(is_walk(g, Seq::<Link>::empty(), v, v));
        assert(is_distance(g, a, v, x));
    }
}

/// The searches on the reweighted graph stay within `i64`.
proof fn lemma_candidates_fit(adj: Seq<Vec<Edge>>, h: Seq<i64>, out: Seq<Vec<Edge>>, start: int)
    requires
        well_formed_adjacency(adj),
        h.len() == adj.len(),
        weights_in_i32(adj),
        potentials_in_i32(h),
        is_reweighting(adj, h, out),
        distances_fit(graph_of(adj)),
        graph_of(out) == shifted(graph_of(adj), h),
        0 <= start < adj.len(),
    ensures
        candidates_representable(out, start),
{
    let g = graph_of(adj);
    lemma_graph_of_well_formed(adj);
    assert forall|u: int, j: int, d: int|
        0 <= u < out.len() && 0 <= j < out[u].len() && #[trigger] is_distance(
            graph_of(out),
            start,
            u,
            d,
        ) implies d + (#[trigger] out[u][j]).weight <= i64::MAX by {
        lemma_distance_unshifted(g, h, start, u, d);
        assert(out[u][j].weight == reweighted(adj, h, u, j));
        assert(adj[u][j].to < adj.len());
    }
}

/// Computes the shortest distance between every ordered pair of vertices of
/// the graph on `num_nodes` vertices with the given `(source, destination,
/// weight)` edges.
///
/// The result is the error `NEGATIVE_CYCLE_DETECTED` exactly when the graph
/// has a cycle of negative weight. Otherwise it is the matrix whose entry
/// `(u, v)` is the least weight of a walk from `u` to `v`, or `None` where
/// there is no such walk.
///
/// Both ends of every edge must be vertices, and every shortest distance
/// must fit the `i32` entries of the matrix; `lemma_small_weights_fit` shows
/// the latter from a bound on the weights. Intermediate values are held in
/// `i64`, so nothing else can overflow.
pub fn johnsons_algorithm(num_nodes: usize, edges: Vec<(usize, usize, i32)>) -> (result: Result<
    Vec<Vec<Option<i32>>>,
    &'static str,
>)
    requires
        edges_in_range(num_nodes as nat, edges@),
        distances_fit(edge_list_graph(num_nodes as nat, edges@)),
    ensures
        is_apsp_outcome(edge_list_graph(num_nodes as nat, edges@), outcome_of(result)),
{
    let ghost g = edge_list_graph(num_nodes as nat, edges@);
    let adj_list = build_adjacency(num_nodes, &edges);
    proof {
        lemma_graph_of_well_formed(adj_list@);
        lemma_potentials_fit(g);
    }
    let h = match bellman_ford(&adj_list, num_nodes) {
        Some(h) => h,
        None => {
            return Err(NEGATIVE_CYCLE_DETECTED);
        },
    };
    proof {
        assert forall|v: int| 0 <= v < h.len() implies i32::MIN <= #[trigger] h[v] <= 0 by {
            assert(is_potential(g, v, h[v] as int));
        }
        assert forall|u: int, j: int|
            0 <= u < adj_list.len() && 0 <= j < adj_list[u].len() implies i64::MIN
            <= #[trigger] reweighted(adj_list@, h@, u, j) <= i64::MAX by {
            assert(adj_list[u][j].to < adj_list.len());
        }
    }
    let reweighted_adj = reweight(&adj_list, &h);
    proof {
        lemma_reweighting_nonnegative(adj_list@, h@, reweighted_adj@);
    }
    let mut all_pairs_shortest_paths: Vec<Vec<Option<i32>>> = Vec::new();
    let mut u: usize = 0;
    while u < num_nodes
        invariant
            u <= num_nodes,
            adj_list.len() == num_nodes,
            h.len() == num_nodes,
            g == graph_of(adj_list@),
            g.well_formed(),
            g.order == num_nodes,
            distances_fit(g),
            well_formed_adjacency(adj_list@),
            weights_in_i32(adj_list@),
            potentials_in_i32(h@),
            is_reweighting(adj_list@, h@, reweighted_adj@),
            well_formed_adjacency(reweighted_adj@),
            nonnegative_weights(reweighted_adj@),
            graph_of(reweighted_adj@) == shifted(g, h@),
            all_pairs_shortest_paths.len() == u,
            forall|x: int|
                0 <= x < u ==> (#[trigger] all_pairs_shortest_paths[x]).len() == num_nodes,
            forall|x: int, v: int|
                0 <= x < u && 0 <= v < num_nodes ==> is_entry(
                    g,
                    x,
                    v,
                    #[trigger] all_pairs_shortest_paths[x][v],
                ),
        decreases num_nodes - u,
    {
        proof {
            lemma_candidates_fit(adj_list@, h@, reweighted_adj@, u as int);
        }
        let d_prime = dijkstra(&reweighted_adj, u);
        let mut real_dists: Vec<Option<i32>> = Vec::new();
        let mut v: usize = 0;
        while v < num_nodes
            invariant
                u < num_nodes,
                v <= num_nodes,
                h.len() == num_nodes,
                g.well_formed(),
                g.order == num_nodes,
                distances_fit(g),
                potentials_in_i32(h@),
                is_distance_row(shifted(g, h@), u as int, d_prime@),
                real_dists.len() == v,
                forall|x: int| 0 <= x < v ==> is_entry(g, u as int, x, #[trigger] real_dists[x]),
            decreases num_nodes - v,
        {
            let val = match d_prime[v] {
                Some(d) => {
                    proof {
                        lemma_distance_unshifted(g, h@, u as int, v as int, d as int);
                    }
                    Some((d - h[u] + h[v]) as i32)
                },
                None => {
                    proof {
                        if reachable(g, u as int, v as int) {
                            lemma_reachable_shifted(g, h@, u as int, v as int);
                        }
                    }
                    None
                },
            };
            real_dists.push(val);
            v += 1;
        }
        all_pairs_shortest_paths.push(real_dists);
        u += 1;
    }
    proof {
        let m = matrix_of(all_pairs_shortest_paths@);
        assert forall|x: int, v: int| 0 <= x < g.order && 0 <= v < g.order implies is_entry(
            g,
            x,
            v,
            #[trigger] m[x][v],
        ) by {
            assert(is_entry(g, x, v, all_pairs_shortest_paths[x][v]));
        }
    }
    Ok(all_pairs_shortest_paths)
}

} // verus!
