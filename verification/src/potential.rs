//! Vertex potentials by Bellman-Ford relaxation, and negative-cycle detection.
//!
//! The potential of a vertex is the least weight of any walk that ends at it,
//! the empty walk included. This is the distance from a virtual source joined
//! to every vertex by a link of weight zero; the source is never built, the
//! working distances simply start at zero.

use crate::adjacency::{graph_of, lemma_graph_of_well_formed, lemma_link_slot, lemma_slot_is_link,
    slot_link, well_formed_adjacency, Edge};
use crate::graph::{has_negative_cycle, is_distance, is_walk, lemma_distance_by_short_walk,
    lemma_empty_walk, lemma_shorten_walk, lemma_walk_ends, lemma_walk_pop, lemma_walk_push,
    lemma_weight_floor, walk_weight, Digraph, Link};
use vstd::prelude::*;

verus! {

/// Some walk that ends at `v` weighs exactly `x`.
pub open spec fn ends_with_weight(g: Digraph, v: int, x: int) -> bool {
    exists|p: Seq<Link>, u: int| #[trigger] is_walk(g, p, u, v) && walk_weight(p) == x
}

/// No walk that ends at `v` weighs less than `x`.
pub open spec fn below_all_walks_to(g: Digraph, v: int, x: int) -> bool {
    forall|p: Seq<Link>, u: int| #[trigger] is_walk(g, p, u, v) ==> x <= walk_weight(p)
}

/// `x` is the potential of `v`: the least weight of a walk that ends at `v`.
pub open spec fn is_potential(g: Digraph, v: int, x: int) -> bool {
    ends_with_weight(g, v, x) && below_all_walks_to(g, v, x)
}

/// `h` holds the potential of every vertex.
pub open spec fn potentials_of(g: Digraph, h: Seq<i64>) -> bool {
    &&& h.len() == g.order
    &&& forall|v: int| 0 <= v < h.len() ==> is_potential(g, v, #[trigger] h[v] as int)
}

/// Every potential that exists can be held in an `i64`.
pub open spec fn potentials_representable(g: Digraph) -> bool {
    forall|v: int, x: int| #[trigger] is_potential(g, v, x) ==> i64::MIN <= x
}

/// Some walk weighs less than `bound`.
spec fn has_walk_below(g: Digraph, bound: int) -> bool {
    exists|p: Seq<Link>, a: int, b: int| #[trigger] is_walk(g, p, a, b) && walk_weight(p) < bound
}

/// Each working distance is the weight of a walk that ends at its vertex.
spec fn all_attained(g: Digraph, dist: Seq<i64>) -> bool {
    forall|v: int| 0 <= v < dist.len() ==> ends_with_weight(g, v, #[trigger] dist[v] as int)
}

/// No working distance is above zero.
spec fn none_positive(dist: Seq<i64>) -> bool {
    forall|v: int| 0 <= v < dist.len() ==> #[trigger] dist[v] <= 0
}

/// No working distance has gone up from `before` to `after`.
spec fn not_raised(before: Seq<i64>, after: Seq<i64>) -> bool {
    &&& before.len() == after.len()
    &&& forall|v: int| 0 <= v < after.len() ==> #[trigger] after[v] <= before[v]
}

/// Entry `j` of vertex `u`'s list has been relaxed: going from `u` as it
/// stood in `before` along the edge does not improve on `after`.
spec fn relaxed(
    adj: Seq<Vec<Edge>>,
    before: Seq<i64>,
    after: Seq<i64>,
    u: int,
    j: int,
) -> bool {
    after[adj[u][j].to as int] <= before[u] + adj[u][j].weight
}

/// All entries of the lists of the vertices below `upto` have been relaxed.
spec fn relaxed_below(
    adj: Seq<Vec<Edge>>,
    before: Seq<i64>,
    after: Seq<i64>,
    upto: int,
) -> bool {
    forall|u: int, j: int|
        0 <= u < upto && 0 <= j < adj[u].len() ==> #[trigger] relaxed(adj, before, after, u, j)
}

/// No edge can lower a working distance any more.
spec fn settled(adj: Seq<Vec<Edge>>, dist: Seq<i64>) -> bool {
    relaxed_below(adj, dist, dist, adj.len() as int)
}

/// No working distance is above the weight of a walk of at most `k` links
/// that ends at its vertex.
spec fn within_short_walks(g: Digraph, dist: Seq<i64>, k: int) -> bool {
    forall|p: Seq<Link>, u: int, v: int| #[trigger]
        is_walk(g, p, u, v) && p.len() <= k ==> dist[v] <= walk_weight(p)
}

/// Along any walk, settled distances grow by no more than the walk weighs.
proof fn lemma_settled_telescopes(
    adj: Seq<Vec<Edge>>,
    dist: Seq<i64>,
    p: Seq<Link>,
    u: int,
    v: int,
)
    requires
        well_formed_adjacency(adj),
        dist.len() == adj.len(),
        settled(adj, dist),
        is_walk(graph_of(adj), p, u, v),
    ensures
        dist[v] <= dist[u] + walk_weight(p),
    decreases p.len(),
{
    let g = graph_of(adj);
    lemma_graph_of_well_formed(adj);
    lemma_walk_ends(g, p, u, v);
    if p.len() > 0 {
        lemma_walk_pop(g, p, u, v);
        let l = p.last();
        lemma_settled_telescopes(adj, dist, p.drop_last(), u, l.from);
        let j = lemma_link_slot(adj, l);
        assert(relaxed(adj, dist, dist, l.from, j));
    }
}

/// Settled distances that are walk weights and not above zero are the potentials,
/// and their graph has no negative cycle.
proof fn lemma_settled_are_potentials(adj: Seq<Vec<Edge>>, dist: Seq<i64>)
    requires
        well_formed_adjacency(adj),
        dist.len() == adj.len(),
        settled(adj, dist),
        all_attained(graph_of(adj), dist),
        none_positive(dist),
    ensures
        potentials_of(graph_of(adj), dist),
        !has_negative_cycle(graph_of(adj)),
{
    let g = graph_of(adj);
    assert forall|v: int| 0 <= v < dist.len() implies is_potential(
        g,
        v,
        #[trigger] dist[v] as int,
    ) by {
        assert forall|p: Seq<Link>, u: int| #[trigger] is_walk(g, p, u, v) implies dist[v]
            <= walk_weight(p) by {
            lemma_walk_ends(g, p, u, v);
            lemma_settled_telescopes(adj, dist, p, u, v);
            assert(dist[u] <= 0);
        }
    }
    assert forall|p: Seq<Link>, u: int| #[trigger] is_walk(g, p, u, u) implies walk_weight(p)
        >= 0 by {
        lemma_walk_ends(g, p, u, u);
        lemma_settled_telescopes(adj, dist, p, u, u);
    }
}

/// Where no cycle is negative and link weights are bounded below, every
/// vertex that a walk ends at has a potential, no greater than that walk's weight.
pub proof fn lemma_potential_exists(g: Digraph, p: Seq<Link>, u: int, v: int, floor: int) -> (x:
    int)
    requires
        g.well_formed(),
        !has_negative_cycle(g),
        floor <= 0,
        forall|l: Link| #[trigger] g.links.contains(l) ==> floor <= l.weight,
        is_walk(g, p, u, v),
    ensures
        is_potential(g, v, x),
        x <= walk_weight(p),
    decreases walk_weight(p) - g.order * floor,
{
    lemma_walk_over_floor(g, p, u, v, floor);
    if below_all_walks_to(g, v, walk_weight(p)) {
        walk_weight(p)
    } else {
        let (q, a) = choose|q: Seq<Link>, a: int| #[trigger]
            is_walk(g, q, a, v) && walk_weight(q) < walk_weight(p);
        lemma_walk_over_floor(g, q, a, v, floor);
        lemma_potential_exists(g, q, a, v, floor)
    }
}

/// Where no cycle is negative, no walk weighs less than as many least links
/// as the graph has vertices.
proof fn lemma_walk_over_floor(g: Digraph, p: Seq<Link>, u: int, v: int, floor: int)
    requires
        g.well_formed(),
        !has_negative_cycle(g),
        floor <= 0,
        forall|l: Link| #[trigger] g.links.contains(l) ==> floor <= l.weight,
        is_walk(g, p, u, v),
    ensures
        g.order * floor <= walk_weight(p),
{
    let q = lemma_shorten_walk(g, p, u, v);
    lemma_weight_floor(g, q, u, v, floor);
    assert(g.order * floor <= q.len() * floor) by (nonlinear_arith)
        requires
            q.len() <= g.order,
            floor <= 0,
    ;
}

/// Where as many links of the least weight `floor` as the graph has vertices
/// stay within an `i64`, every potential does.
pub proof fn lemma_light_links_representable(g: Digraph, floor: int)
    requires
        g.well_formed(),
        floor <= 0,
        forall|l: Link| #[trigger] g.links.contains(l) ==> floor <= l.weight,
        i64::MIN <= g.order * floor,
    ensures
        potentials_representable(g),
{
    assert forall|v: int, x: int| #[trigger] is_potential(g, v, x) implies i64::MIN <= x by {
        let (p, a) = choose|p: Seq<Link>, a: int| #[trigger]
            is_walk(g, p, a, v) && walk_weight(p) == x;
        assert(is_distance(g, a, v, x));
        let q = lemma_distance_by_short_walk(g, a, v, x, p);
        lemma_weight_floor(g, q, a, v, floor);
        assert(g.order * floor <= q.len() * floor) by (nonlinear_arith)
            requires
                q.len() <= g.order,
                floor <= 0,
        ;
    }
}

/// A walk below the range of `i64` can exist only where a cycle is negative.
proof fn lemma_unbounded_means_cycle(adj: Seq<Vec<Edge>>)
    requires
        well_formed_adjacency(adj),
        potentials_representable(graph_of(adj)),
        has_walk_below(graph_of(adj), i64::MIN as int),
    ensures
        has_negative_cycle(graph_of(adj)),
{
    let g = graph_of(adj);
    lemma_graph_of_well_formed(adj);
    if !has_negative_cycle(g) {
        let (p, a, b) = choose|p: Seq<Link>, a: int, b: int| #[trigger]
            is_walk(g, p, a, b) && walk_weight(p) < i64::MIN;
        assert forall|l: Link| #[trigger] g.links.contains(l) implies i64::MIN <= l.weight by {
            let j = lemma_link_slot(adj, l);
        }
        let x = lemma_potential_exists(g, p, a, b, i64::MIN as int);
        assert(is_potential(g, b, x));
    }
}

/// One more full round of relaxation covers walks one link longer.
proof fn lemma_round_covers_longer_walks(
    adj: Seq<Vec<Edge>>,
    before: Seq<i64>,
    after: Seq<i64>,
    k: int,
)
    requires
        well_formed_adjacency(adj),
        before.len() == adj.len(),
        not_raised(before, after),
        relaxed_below(adj, before, after, adj.len() as int),
        within_short_walks(graph_of(adj), before, k),
        0 <= k,
    ensures
        within_short_walks(graph_of(adj), after, k + 1),
{
    let g = graph_of(adj);
    lemma_graph_of_well_formed(adj);
    assert forall|p: Seq<Link>, u: int, v: int| #[trigger]
        is_walk(g, p, u, v) && p.len() <= k + 1 implies after[v] <= walk_weight(p) by {
        lemma_walk_ends(g, p, u, v);
        if p.len() == 0 {
            assert(after[v] <= before[v]);
        } else {
            lemma_walk_pop(g, p, u, v);
            let l = p.last();
            assert(is_walk(g, p.drop_last(), u, l.from));
            let j = lemma_link_slot(adj, l);
            assert(relaxed(adj, before, after, l.from, j));
        }
    }
}

/// After as many rounds as there are vertices, an edge that still relaxes
/// betrays a negative cycle.
proof fn lemma_late_relaxation_means_cycle(adj: Seq<Vec<Edge>>, dist: Seq<i64>)
    requires
        well_formed_adjacency(adj),
        dist.len() == adj.len(),
        all_attained(graph_of(adj), dist),
        within_short_walks(graph_of(adj), dist, adj.len() as int),
        !settled(adj, dist),
    ensures
        has_negative_cycle(graph_of(adj)),
{
    let g = graph_of(adj);
    lemma_graph_of_well_formed(adj);
    if !has_negative_cycle(g) {
        let (u, j) = choose|u: int, j: int|
            0 <= u < adj.len() && 0 <= j < adj[u].len() && !#[trigger] relaxed(
                adj,
                dist,
                dist,
                u,
                j,
            );
        let l = slot_link(adj, u, j);
        lemma_slot_is_link(adj, u, j);
        assert(ends_with_weight(g, u, dist[u] as int));
        let (p, a) = choose|p: Seq<Link>, a: int| #[trigger]
            is_walk(g, p, a, u) && walk_weight(p) == dist[u];
        lemma_walk_push(g, p, a, l);
        let q = lemma_shorten_walk(g, p.push(l), a, l.to);
        assert(is_walk(g, q, a, l.to) && q.len() <= adj.len());
    }
}

/// Relaxes the edges that leave `u`, in list order. `None` tells that a
/// candidate fell below the range of `i64`; otherwise the flag tells whether
/// any distance was lowered.
fn relax_vertex(adj_list: &Vec<Vec<Edge>>, dist: &mut Vec<i64>, u: usize) -> (r: Option<bool>)
    requires
        u < adj_list.len(),
        old(dist).len() == adj_list.len(),
        well_formed_adjacency(adj_list@),
        all_attained(graph_of(adj_list@), old(dist)@),
        none_positive(old(dist)@),
    ensures
        r is None ==> has_walk_below(graph_of(adj_list@), i64::MIN as int),
        r is Some ==> all_attained(graph_of(adj_list@), final(dist)@),
        r is Some ==> not_raised(old(dist)@, final(dist)@),
        r is Some ==> forall|j: int|
            0 <= j < adj_list[u as int].len() ==> #[trigger] relaxed(
                adj_list@,
                old(dist)@,
                final(dist)@,
                u as int,
                j,
            ),
        r == Some(false) ==> final(dist)@ == old(dist)@,
{
    let ghost g = graph_of(adj_list@);
    let ghost start = dist@;
    proof {
        lemma_graph_of_well_formed(adj_list@);
    }
    let mut changed = false;
    let mut j: usize = 0;
    while j < adj_list[u].len()
        invariant
            u < adj_list.len(),
            dist.len() == adj_list.len(),
            g == graph_of(adj_list@),
            g.well_formed(),
            well_formed_adjacency(adj_list@),
            j <= adj_list[u as int].len(),
            all_attained(g, dist@),
            none_positive(start),
            not_raised(start, dist@),
            forall|k: int| 0 <= k < j ==> #[trigger] relaxed(adj_list@, start, dist@, u as int, k),
            !changed ==> dist@ == start,
        decreases adj_list[u as int].len() - j,
    {
        let to = adj_list[u][j].to;
        let weight = adj_list[u][j].weight;
        let ghost l = slot_link(adj_list@, u as int, j as int);
        proof {
            lemma_slot_is_link(adj_list@, u as int, j as int);
            assert(dist[u as int] <= start[u as int]);
            assert(ends_with_weight(g, u as int, dist[u as int] as int));
        }
        let ghost (p, a) = choose|p: Seq<Link>, a: int| #[trigger]
            is_walk(g, p, a, u as int) && walk_weight(p) == dist[u as int];
        proof {
            lemma_walk_push(g, p, a, l);
        }
        match dist[u].checked_add(weight) {
            None => {
                assert(is_walk(g, p.push(l), a, l.to) && walk_weight(p.push(l)) < i64::MIN);
                return None;
            },
            Some(candidate) => {
                if candidate < dist[to] {
                    let ghost before = dist@;
                    dist[to] = candidate;
                    changed = true;
                    proof {
                        assert(is_walk(g, p.push(l), a, to as int));
                        assert forall|v: int| 0 <= v < dist.len() implies ends_with_weight(
                            g,
                            v,
                            #[trigger] dist[v] as int,
                        ) by {
                            if v != to {
                                assert(dist[v] == before[v]);
                            }
                        }
                        assert forall|k: int| 0 <= k < j implies #[trigger] relaxed(
                            adj_list@,
                            start,
                            dist@,
                            u as int,
                            k,
                        ) by {
                            assert(relaxed(adj_list@, start, before, u as int, k));
                        }
                    }
                }
                assert(relaxed(adj_list@, start, dist@, u as int, j as int));
            },
        }
        j += 1;
    }
    Some(changed)
}

/// One round: relaxes every edge, vertices in index order and each vertex's
/// edges in list order.
fn relax_round(adj_list: &Vec<Vec<Edge>>, dist: &mut Vec<i64>) -> (r: Option<bool>)
    requires
        old(dist).len() == adj_list.len(),
        well_formed_adjacency(adj_list@),
        all_attained(graph_of(adj_list@), old(dist)@),
        none_positive(old(dist)@),
    ensures
        r is None ==> has_walk_below(graph_of(adj_list@), i64::MIN as int),
        r is Some ==> all_attained(graph_of(adj_list@), final(dist)@),
        r is Some ==> not_raised(old(dist)@, final(dist)@),
        r is Some ==> relaxed_below(adj_list@, old(dist)@, final(dist)@, adj_list.len() as int),
        r == Some(false) ==> final(dist)@ == old(dist)@,
{
    let ghost start = dist@;
    let mut changed = false;
    let mut u: usize = 0;
    while u < adj_list.len()
        invariant
            u <= adj_list.len(),
            dist.len() == adj_list.len(),
            well_formed_adjacency(adj_list@),
            all_attained(graph_of(adj_list@), dist@),
            none_positive(start),
            not_raised(start, dist@),
            relaxed_below(adj_list@, start, dist@, u as int),
            !changed ==> dist@ == start,
        decreases adj_list.len() - u,
    {
        let ghost before = dist@;
        match relax_vertex(adj_list, dist, u) {
            None => {
                return None;
            },
            Some(lowered) => {
                changed = changed || lowered;
            },
        }
        proof {
            assert forall|x: int, j: int|
                0 <= x < u + 1 && 0 <= j < adj_list[x].len() implies #[trigger] relaxed(
                adj_list@,
                start,
                dist@,
                x,
                j,
            ) by {
                if x < u {
                    assert(relaxed(adj_list@, start, before, x, j));
                } else {
                    assert(relaxed(adj_list@, before, dist@, u as int, j));
                }
            }
        }
        u += 1;
    }
    Some(changed)
}

/// The closing pass: tells whether no edge relaxes any more.
fn is_settled(adj_list: &Vec<Vec<Edge>>, dist: &Vec<i64>) -> (b: bool)
    requires
        dist.len() == adj_list.len(),
        well_formed_adjacency(adj_list@),
    ensures
        b == settled(adj_list@, dist@),
{
    let mut u: usize = 0;
    while u < adj_list.len()
        invariant
            u <= adj_list.len(),
            dist.len() == adj_list.len(),
            well_formed_adjacency(adj_list@),
            relaxed_below(adj_list@, dist@, dist@, u as int),
        decreases adj_list.len() - u,
    {
        let mut j: usize = 0;
        while j < adj_list[u].len()
            invariant
                u < adj_list.len(),
                j <= adj_list[u as int].len(),
                dist.len() == adj_list.len(),
                well_formed_adjacency(adj_list@),
                relaxed_below(adj_list@, dist@, dist@, u as int),
                forall|k: int|
                    0 <= k < j ==> #[trigger] relaxed(adj_list@, dist@, dist@, u as int, k),
            decreases adj_list[u as int].len() - j,
        {
            let to = adj_list[u][j].to;
            let still_relaxes = match dist[u].checked_add(adj_list[u][j].weight) {
                // Out of range: below it if `dist[u]` is negative, else above it.
                None => dist[u] < 0,
                Some(candidate) => candidate < dist[to],
            };
            if still_relaxes {
                assert(!relaxed(adj_list@, dist@, dist@, u as int, j as int));
                return false;
            }
            j += 1;
        }
        u += 1;
    }
    true
}

/// Computes the potential of every vertex, or reports a negative cycle.
///
/// All working distances start at zero. Up to `num_nodes` rounds relax every
/// edge; the rounds stop early once one of them lowers nothing. A closing
/// pass over all edges then decides: if an edge still relaxes, the graph has
/// a negative cycle and the result is `None`. A candidate below the range of
/// `i64` settles the matter at once, as no potential could be that low.
pub fn bellman_ford(adj_list: &Vec<Vec<Edge>>, num_nodes: usize) -> (result: Option<Vec<i64>>)
    requires
        adj_list.len() == num_nodes,
        well_formed_adjacency(adj_list@),
        potentials_representable(graph_of(adj_list@)),
    ensures
        result is None <==> has_negative_cycle(graph_of(adj_list@)),
        result matches Some(h) ==> potentials_of(graph_of(adj_list@), h@),
{
    let ghost g = graph_of(adj_list@);
    let mut dist: Vec<i64> = Vec::new();
    while dist.len() < num_nodes
        invariant
            dist.len() <= num_nodes,
            forall|v: int| 0 <= v < dist.len() ==> #[trigger] dist[v] == 0,
        decreases num_nodes - dist.len(),
    {
        dist.push(0);
    }
    proof {
        lemma_graph_of_well_formed(adj_list@);
        assert forall|v: int| 0 <= v < dist.len() implies ends_with_weight(
            g,
            v,
            #[trigger] dist[v] as int,
        ) by {
            lemma_empty_walk(g, v);
        }
        assert forall|p: Seq<Link>, u: int, v: int| #[trigger]
            is_walk(g, p, u, v) && p.len() <= 0 implies dist[v] <= walk_weight(p) by {
            lemma_walk_ends(g, p, u, v);
        }
    }
    let mut round: usize = 0;
    let mut changed = true;
    while round < num_nodes && changed
        invariant
            round <= num_nodes,
            adj_list.len() == num_nodes,
            dist.len() == num_nodes,
            g == graph_of(adj_list@),
            well_formed_adjacency(adj_list@),
            potentials_representable(g),
            all_attained(g, dist@),
            none_positive(dist@),
            within_short_walks(g, dist@, round as int),
            !changed ==> settled(adj_list@, dist@),
        decreases num_nodes - round,
    {
        let ghost before = dist@;
        match relax_round(adj_list, &mut dist) {
            None => {
                proof {
                    lemma_unbounded_means_cycle(adj_list@);
                }
                return None;
            },
            Some(lowered) => {
                changed = lowered;
            },
        }
        proof {
            lemma_round_covers_longer_walks(adj_list@, before, dist@, round as int);
        }
        round += 1;
    }
    if is_settled(adj_list, &dist) {
        proof {
            lemma_settled_are_potentials(adj_list@, dist@);
        }
        Some(dist)
    } else {
        proof {
            lemma_late_relaxation_means_cycle(adj_list@, dist@);
        }
        None
    }
}

} // verus!
