//! Single-source shortest distances over non-negative weights, by Dijkstra's
//! search with a priority queue and lazy deletion.

use crate::adjacency::{graph_of, lemma_graph_of_well_formed, lemma_link_slot, lemma_slot_is_link,
    nonnegative_weights, slot_link, well_formed_adjacency, Edge};
use crate::graph::{attained, is_distance, is_lower_bound, is_walk, lemma_distance_by_short_walk,
    lemma_empty_walk, lemma_walk_ends, lemma_walk_pop, lemma_walk_push, lemma_weight_ceiling,
    reachable, walk_weight, Digraph, Link};
use crate::queue::{MinQueue, State};
use vstd::multiset::Multiset;
use vstd::prelude::*;
use vstd::set_lib::{lemma_int_range, lemma_len_subset, set_int_range};

verus! {

/// The shortest distance from `start` to any vertex, extended by any edge
/// that leaves that vertex, can be held in an `i64`.
pub open spec fn candidates_representable(adj: Seq<Vec<Edge>>, start: int) -> bool {
    forall|u: int, j: int, d: int|
        0 <= u < adj.len() && 0 <= j < adj[u].len() && #[trigger] is_distance(
            graph_of(adj),
            start,
            u,
            d,
        ) ==> d + (#[trigger] adj[u][j]).weight <= i64::MAX
}

/// Where one link more than the graph has vertices, each of the greatest
/// weight `bound`, stay within an `i64`, so does every candidate of a search.
pub proof fn lemma_bounded_weights_representable(adj: Seq<Vec<Edge>>, start: int, bound: int)
    requires
        well_formed_adjacency(adj),
        0 <= bound,
        forall|u: int, j: int|
            0 <= u < adj.len() && 0 <= j < adj[u].len() ==> (#[trigger] adj[u][j]).weight <= bound,
        (adj.len() + 1) * bound <= i64::MAX,
    ensures
        candidates_representable(adj, start),
{
    let g = graph_of(adj);
    lemma_graph_of_well_formed(adj);
    assert forall|l: Link| #[trigger] g.links.contains(l) implies l.weight <= bound by {
        let j = lemma_link_slot(adj, l);
    }
    assert forall|u: int, j: int, d: int|
        0 <= u < adj.len() && 0 <= j < adj[u].len() && #[trigger] is_distance(
            g,
            start,
            u,
            d,
        ) implies d + (#[trigger] adj[u][j]).weight <= i64::MAX by {
        let p = choose|p: Seq<Link>| #[trigger] is_walk(g, p, start, u) && walk_weight(p) == d;
        let q = lemma_distance_by_short_walk(g, start, u, d, p);
        lemma_weight_ceiling(g, q, start, u, bound);
        assert(q.len() * bound + bound <= (adj.len() + 1) * bound) by (nonlinear_arith)
            requires
                q.len() <= adj.len(),
                0 <= bound,
        ;
    }
}

/// `row` holds, for every vertex, its shortest distance from `start`, or
/// `None` where no walk leads there.
pub open spec fn is_distance_row(g: Digraph, start: int, row: Seq<Option<i64>>) -> bool {
    &&& row.len() == g.order
    &&& forall|v: int|
        #![trigger row[v]]
        0 <= v < row.len() ==> match row[v] {
            Some(d) => is_distance(g, start, v, d as int),
            None => !reachable(g, start, v),
        }
}

/// Every recorded distance is the weight of a walk from `start`.
spec fn labels_attained(g: Digraph, start: int, dist: Seq<Option<i64>>) -> bool {
    forall|v: int|
        #![trigger dist[v]]
        0 <= v < dist.len() ==> (dist[v] matches Some(d) ==> 0 <= d && attained(
            g,
            start,
            v,
            d as int,
        ))
}

/// Every waiting state is for a vertex whose recorded distance is no greater.
spec fn queue_sound(dist: Seq<Option<i64>>, queue: Multiset<State>) -> bool {
    forall|s: State| #[trigger]
        queue.count(s) > 0 ==> s.position < dist.len() && (dist[s.position as int] matches Some(d)
            && d <= s.cost)
}

/// Every vertex with a recorded distance that is not done waits in the queue
/// with that distance.
spec fn queue_complete(
    dist: Seq<Option<i64>>,
    queue: Multiset<State>,
    done: Set<int>,
) -> bool {
    forall|v: int|
        #![trigger dist[v]]
        0 <= v < dist.len() && !done.contains(v) ==> (dist[v] matches Some(d) ==> queue.count(
            State { cost: d, position: v as usize },
        ) > 0)
}

/// The recorded distance of a vertex that is done is below every walk to it.
spec fn done_exact(
    g: Digraph,
    start: int,
    dist: Seq<Option<i64>>,
    done: Set<int>,
) -> bool {
    forall|v: int| #[trigger]
        done.contains(v) ==> 0 <= v < dist.len() && (dist[v] matches Some(d) && is_lower_bound(
            g,
            start,
            v,
            d as int,
        ))
}

/// Entry `j` of vertex `v`'s list cannot improve the recorded distances.
spec fn edge_relaxed(adj: Seq<Vec<Edge>>, dist: Seq<Option<i64>>, v: int, j: int) -> bool {
    dist[v] matches Some(d) && (dist[adj[v][j].to as int] matches Some(e) && e <= d
        + adj[v][j].weight)
}

/// The edges of the vertices that are done are relaxed; of vertex `current`,
/// only the first `upto`.
spec fn done_relaxed(
    adj: Seq<Vec<Edge>>,
    dist: Seq<Option<i64>>,
    done: Set<int>,
    current: int,
    upto: int,
) -> bool {
    forall|v: int, j: int|
        done.contains(v) && 0 <= v < adj.len() && 0 <= j < adj[v].len() && (v != current || j
            < upto) ==> #[trigger] edge_relaxed(adj, dist, v, j)
}

/// What holds of the search between any two steps. `current` is the vertex
/// whose edges are being relaxed and `upto` the number of them that have
/// been; between vertices `current` is `-1`.
spec fn search_state(
    adj: Seq<Vec<Edge>>,
    start: int,
    dist: Seq<Option<i64>>,
    queue: Multiset<State>,
    done: Set<int>,
    current: int,
    upto: int,
) -> bool {
    &&& dist.len() == adj.len()
    &&& dist.len() <= usize::MAX
    &&& 0 <= start < adj.len()
    &&& dist[start] == Some(0i64)
    &&& labels_attained(graph_of(adj), start, dist)
    &&& queue_sound(dist, queue)
    &&& queue_complete(dist, queue, done)
    &&& done_exact(graph_of(adj), start, dist, done)
    &&& done_relaxed(adj, dist, done, current, upto)
}

/// Between vertices, a walk from `start` either weighs at least as much as
/// every waiting state costs, or ends at a vertex that is done and whose
/// recorded distance is no greater than the walk's weight.
proof fn lemma_frontier(
    adj: Seq<Vec<Edge>>,
    start: int,
    dist: Seq<Option<i64>>,
    queue: Multiset<State>,
    done: Set<int>,
    least: int,
    p: Seq<Link>,
    z: int,
)
    requires
        well_formed_adjacency(adj),
        nonnegative_weights(adj),
        search_state(adj, start, dist, queue, done, -1, 0),
        forall|t: State| #[trigger] queue.count(t) > 0 ==> least <= t.cost,
        is_walk(graph_of(adj), p, start, z),
    ensures
        least <= walk_weight(p) || (done.contains(z) && (dist[z] matches Some(d) && d
            <= walk_weight(p))),
    decreases p.len(),
{
    let g = graph_of(adj);
    lemma_graph_of_well_formed(adj);
    lemma_walk_ends(g, p, start, z);
    if p.len() == 0 {
        if !done.contains(start) {
            assert(queue.count(State { cost: 0, position: start as usize }) > 0);
        }
    } else {
        lemma_walk_pop(g, p, start, z);
        let l = p.last();
        let x = l.from;
        let j = lemma_link_slot(adj, l);
        assert(adj[x][j].weight >= 0);
        lemma_frontier(adj, start, dist, queue, done, least, p.drop_last(), x);
        if !(least <= walk_weight(p.drop_last())) {
            assert(edge_relaxed(adj, dist, x, j));
            let e = dist[z]->Some_0;
            if !done.contains(z) {
                assert(queue.count(State { cost: e, position: z as usize }) > 0);
            }
        }
    }
}

/// Dropping a stale state from the queue changes nothing else.
proof fn lemma_drop_stale(
    adj: Seq<Vec<Edge>>,
    start: int,
    dist: Seq<Option<i64>>,
    queue: Multiset<State>,
    done: Set<int>,
    s: State,
)
    requires
        search_state(adj, start, dist, queue, done, -1, 0),
        queue.count(s) > 0,
        dist[s.position as int] matches Some(d) && d < s.cost,
    ensures
        search_state(adj, start, dist, queue.remove(s), done, -1, 0),
        queue.remove(s).len() < queue.len(),
{
    broadcast use vstd::multiset::group_multiset_axioms;

    let rest = queue.remove(s);
    assert forall|v: int|
        #![trigger dist[v]]
        0 <= v < dist.len() && !done.contains(v) implies (dist[v] matches Some(d) ==> rest.count(
        State { cost: d, position: v as usize },
    ) > 0) by {
        if dist[v] is Some {
            let t = State { cost: dist[v]->Some_0, position: v as usize };
            assert(queue.count(t) > 0);
            assert(t != s);
        }
    }
}

/// A popped state that is not stale carries its vertex's shortest distance,
/// and the vertex is then done.
proof fn lemma_settle(
    adj: Seq<Vec<Edge>>,
    start: int,
    dist: Seq<Option<i64>>,
    queue: Multiset<State>,
    done: Set<int>,
    s: State,
)
    requires
        well_formed_adjacency(adj),
        nonnegative_weights(adj),
        search_state(adj, start, dist, queue, done, -1, 0),
        queue.count(s) > 0,
        forall|t: State| #[trigger] queue.count(t) > 0 ==> s.cost <= t.cost,
        dist[s.position as int] matches Some(d) && d >= s.cost,
    ensures
        dist[s.position as int] == Some(s.cost),
        is_distance(graph_of(adj), start, s.position as int, s.cost as int),
        search_state(
            adj,
            start,
            dist,
            queue.remove(s),
            done.insert(s.position as int),
            s.position as int,
            0,
        ),
        done.contains(s.position as int) ==> search_state(
            adj,
            start,
            dist,
            queue.remove(s),
            done,
            -1,
            0,
        ),
        queue.remove(s).len() < queue.len(),
{
    broadcast use vstd::multiset::group_multiset_axioms;

    let g = graph_of(adj);
    let v = s.position as int;
    let rest = queue.remove(s);
    let after = done.insert(v);
    assert forall|p: Seq<Link>| #[trigger] is_walk(g, p, start, v) implies s.cost <= walk_weight(
        p,
    ) by {
        lemma_frontier(adj, start, dist, queue, done, s.cost as int, p, v);
    }
    assert forall|x: int|
        #![trigger dist[x]]
        0 <= x < dist.len() && !after.contains(x) implies (dist[x] matches Some(d) ==> rest.count(
        State { cost: d, position: x as usize },
    ) > 0) by {
        if dist[x] is Some {
            let t = State { cost: dist[x]->Some_0, position: x as usize };
            assert(queue.count(t) > 0);
            assert(t != s);
        }
    }
    assert forall|x: int, j: int|
        after.contains(x) && 0 <= x < adj.len() && 0 <= j < adj[x].len() && (x != v || j
            < 0) implies #[trigger] edge_relaxed(adj, dist, x, j) by {
        assert(done.contains(x));
    }
    if done.contains(v) {
        assert(after =~= done);
    }
}

/// Recording a strictly better candidate for the end of the edge being
/// relaxed, and queueing it, keeps the search in order.
proof fn lemma_record_candidate(
    adj: Seq<Vec<Edge>>,
    start: int,
    dist: Seq<Option<i64>>,
    queue: Multiset<State>,
    done: Set<int>,
    position: int,
    j: int,
    candidate: i64,
)
    requires
        well_formed_adjacency(adj),
        nonnegative_weights(adj),
        search_state(adj, start, dist, queue, done, position, j),
        done.contains(position),
        0 <= position < adj.len(),
        0 <= j < adj[position].len(),
        dist[position] matches Some(cost) && candidate == cost + adj[position][j].weight,
        dist[adj[position][j].to as int] matches Some(d) ==> candidate < d,
    ensures
        search_state(
            adj,
            start,
            dist.update(adj[position][j].to as int, Some(candidate)),
            queue.insert(State { cost: candidate, position: adj[position][j].to }),
            done,
            position,
            j + 1,
        ),
        !done.contains(adj[position][j].to as int),
{
    broadcast use vstd::multiset::group_multiset_axioms;

    let g = graph_of(adj);
    lemma_graph_of_well_formed(adj);
    let to = adj[position][j].to as int;
    let cost = dist[position]->Some_0;
    let fresh = State { cost: candidate, position: adj[position][j].to };
    let new_dist = dist.update(to, Some(candidate));
    let new_queue = queue.insert(fresh);
    let l = slot_link(adj, position, j);
    lemma_slot_is_link(adj, position, j);
    assert(adj[position][j].weight >= 0);
    assert(attained(g, start, position, cost as int));
    let p = choose|p: Seq<Link>| #[trigger]
        is_walk(g, p, start, position) && walk_weight(p) == cost;
    lemma_walk_push(g, p, start, l);
    assert(is_walk(g, p.push(l), start, to));
    assert(attained(g, start, to, candidate as int));
    assert(!done.contains(to));
    assert(to != start) by {
        if to == start {
            assert(dist[start] == Some(0i64));
        }
    }
    assert(labels_attained(g, start, new_dist));
    assert forall|s: State| #[trigger] new_queue.count(s) > 0 implies s.position < new_dist.len()
        && (new_dist[s.position as int] matches Some(d) && d <= s.cost) by {
        if s != fresh {
            assert(queue.count(s) > 0);
        }
    }
    assert forall|v: int|
        #![trigger new_dist[v]]
        0 <= v < new_dist.len() && !done.contains(v) implies (new_dist[v] matches Some(d)
            ==> new_queue.count(State { cost: d, position: v as usize }) > 0) by {
        if v != to && dist[v] is Some {
            let t = State { cost: dist[v]->Some_0, position: v as usize };
            assert(queue.count(t) > 0);
        }
    }
    assert forall|v: int| #[trigger] done.contains(v) implies 0 <= v < new_dist.len() && (
    new_dist[v] matches Some(d) && is_lower_bound(g, start, v, d as int)) by {
        assert(v != to);
        assert(dist[v] == new_dist[v]);
    }
    assert forall|v: int, k: int|
        done.contains(v) && 0 <= v < adj.len() && 0 <= k < adj[v].len() && (v != position || k < j
            + 1) implies #[trigger] edge_relaxed(adj, new_dist, v, k) by {
        assert(v != to);
        assert(new_dist[v] == dist[v]);
        if v != position || k < j {
            assert(edge_relaxed(adj, dist, v, k));
        }
    }
}

/// Computes the shortest distance from `start_node` to every vertex.
///
/// The start is recorded at distance zero and queued. States are popped in
/// order of cost, ties by vertex index. A popped state that costs more than
/// its vertex's recorded distance is stale and dropped. Otherwise every edge
/// that leaves the vertex is tried: a candidate strictly below the recorded
/// distance of the edge's end, or any candidate where none is recorded,
/// replaces it and is queued. States are never removed from the queue when
/// they are superseded.
pub fn dijkstra(adj_list: &Vec<Vec<Edge>>, start_node: usize) -> (dist: Vec<Option<i64>>)
    requires
        well_formed_adjacency(adj_list@),
        nonnegative_weights(adj_list@),
        start_node < adj_list.len(),
        candidates_representable(adj_list@, start_node as int),
    ensures
        is_distance_row(graph_of(adj_list@), start_node as int, dist@),
{
    let n = adj_list.len();
    let ghost g = graph_of(adj_list@);
    let ghost start = start_node as int;
    let mut dist: Vec<Option<i64>> = Vec::new();
    while dist.len() < n
        invariant
            dist.len() <= n,
            forall|v: int| 0 <= v < dist.len() ==> #[trigger] dist[v] is None,
        decreases n - dist.len(),
    {
        dist.push(None);
    }
    dist[start_node] = Some(0);
    let mut heap = MinQueue::new();
    heap.push(State { cost: 0, position: start_node });
    let ghost mut done: Set<int> = Set::empty();
    proof {
        broadcast use vstd::multiset::group_multiset_axioms;

        lemma_graph_of_well_formed(adj_list@);
        lemma_empty_walk(g, start);
        assert(is_walk(g, Seq::<Link>::empty(), start, start));
        assert(labels_attained(g, start, dist@));
        assert(queue_sound(dist@, heap@));
        assert(queue_complete(dist@, heap@, done));
    }
    while !heap.is_empty()
        invariant
            n == adj_list.len(),
            start == start_node as int,
            g == graph_of(adj_list@),
            g.well_formed(),
            well_formed_adjacency(adj_list@),
            nonnegative_weights(adj_list@),
            candidates_representable(adj_list@, start),
            heap.well_formed(),
            search_state(adj_list@, start, dist@, heap@, done, -1, 0),
            done.finite(),
            done.subset_of(set_int_range(0, n as int)),
            done.len() <= n,
        decreases n - done.len(), heap@.len(),
    {
        let ghost waiting = heap@;
        let ghost done_before = done;
        let popped = heap.pop();
        let s = popped.unwrap();
        let cost = s.cost;
        let position = s.position;
        assert(waiting.count(s) > 0);
        let stale = match dist[position] {
            Some(d) => cost > d,
            None => false,
        };
        if stale {
            proof {
                lemma_drop_stale(adj_list@, start, dist@, waiting, done, s);
            }
        } else {
            proof {
                assert forall|t: State| #[trigger] waiting.count(t) > 0 implies s.cost
                    <= t.cost by {
                    assert(waiting.contains(t));
                    assert(s.precedes(t));
                }
                lemma_settle(adj_list@, start, dist@, waiting, done, s);
                done = done.insert(position as int);
                lemma_int_range(0, n as int);
                lemma_len_subset(done, set_int_range(0, n as int));
            }
            let ghost fresh = !done_before.contains(position as int);
            let ghost after_pop = heap@;
            let mut j: usize = 0;
            while j < adj_list[position].len()
                invariant
                    n == adj_list.len(),
                    g == graph_of(adj_list@),
                    well_formed_adjacency(adj_list@),
                    nonnegative_weights(adj_list@),
                    candidates_representable(adj_list@, start),
                    heap.well_formed(),
                    position < n,
                    j <= adj_list[position as int].len(),
                    dist[position as int] == Some(cost),
                    done.contains(position as int),
                    is_distance(g, start, position as int, cost as int),
                    search_state(adj_list@, start, dist@, heap@, done, position as int, j as int),
                    !fresh ==> heap@ == after_pop && search_state(
                        adj_list@,
                        start,
                        dist@,
                        heap@,
                        done,
                        -1,
                        0,
                    ),
                decreases adj_list[position as int].len() - j,
            {
                let to = adj_list[position][j].to;
                let weight = adj_list[position][j].weight;
                assert(cost + adj_list[position as int][j as int].weight <= i64::MAX);
                assert(weight >= 0 && cost >= 0);
                let next_cost = cost + weight;
                let is_shorter = match dist[to] {
                    Some(d) => next_cost < d,
                    None => true,
                };
                if is_shorter {
                    proof {
                        if !fresh {
                            assert(edge_relaxed(adj_list@, dist@, position as int, j as int));
                        }
                        lemma_record_candidate(
                            adj_list@,
                            start,
                            dist@,
                            heap@,
                            done,
                            position as int,
                            j as int,
                            next_cost,
                        );
                    }
                    dist[to] = Some(next_cost);
                    heap.push(State { cost: next_cost, position: to });
                } else {
                    assert(edge_relaxed(adj_list@, dist@, position as int, j as int));
                }
                j += 1;
            }
            proof {
                if !fresh {
                    assert(done =~= done_before);
                }
            }
        }
    }
    proof {
        broadcast use vstd::multiset::group_multiset_axioms;

        assert forall|v: int|
            #![trigger dist[v]]
            0 <= v < dist.len() implies match dist[v] {
            Some(d) => is_distance(g, start, v, d as int),
            None => !reachable(g, start, v),
        } by {
            match dist[v] {
                Some(d) => {
                    assert(heap@.count(State { cost: d, position: v as usize }) == 0);
                    assert(done.contains(v));
                },
                None => {
                    if reachable(g, start, v) {
                        let p = choose|p: Seq<Link>| is_walk(g, p, start, v);
                        lemma_frontier(
                            adj_list@,
                            start,
                            dist@,
                            heap@,
                            done,
                            walk_weight(p) + 1,
                            p,
                            v,
                        );
                    }
                },
            }
        }
    }
    dist
}

} // verus!
