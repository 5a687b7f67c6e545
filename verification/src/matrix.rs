//! Distance matrices, and what holds of every one of them.

use crate::graph::{has_negative_cycle, is_distance, is_walk, lemma_distance_by_short_walk,
    lemma_empty_walk, lemma_walk_concat, lemma_walk_ends, lemma_weight_ceiling, lemma_weight_floor,
    reachable, walk_weight, Digraph, Link};
use vstd::prelude::*;

verus! {

/// Every shortest distance of `g` can be held in an `i32`.
pub open spec fn distances_fit(g: Digraph) -> bool {
    forall|u: int, v: int, d: int| #[trigger]
        is_distance(g, u, v, d) ==> i32::MIN <= d <= i32::MAX
}

/// `entry` is what a distance matrix holds for the pair `(u, v)`: the
/// shortest distance, or `None` where `v` cannot be reached from `u`.
pub open spec fn is_entry(g: Digraph, u: int, v: int, entry: Option<i32>) -> bool {
    match entry {
        Some(d) => is_distance(g, u, v, d as int),
        None => !reachable(g, u, v),
    }
}

/// `m` is the distance matrix of `g`: one row per vertex, one entry per pair.
pub open spec fn is_distance_matrix(g: Digraph, m: Seq<Seq<Option<i32>>>) -> bool {
    &&& m.len() == g.order
    &&& forall|u: int| 0 <= u < m.len() ==> (#[trigger] m[u]).len() == g.order
    &&& forall|u: int, v: int|
        0 <= u < g.order && 0 <= v < g.order ==> is_entry(g, u, v, #[trigger] m[u][v])
}

/// The rows of a matrix as sequences.
pub open spec fn matrix_of(m: Seq<Vec<Option<i32>>>) -> Seq<Seq<Option<i32>>> {
    Seq::new(m.len(), |u: int| m[u]@)
}

/// A pair of vertices has at most one shortest distance.
pub proof fn lemma_distance_unique(g: Digraph, u: int, v: int, d1: int, d2: int)
    requires
        is_distance(g, u, v, d1),
        is_distance(g, u, v, d2),
    ensures
        d1 == d2,
{
    let p1 = choose|p: Seq<Link>| #[trigger] is_walk(g, p, u, v) && walk_weight(p) == d1;
    let p2 = choose|p: Seq<Link>| #[trigger] is_walk(g, p, u, v) && walk_weight(p) == d2;
    assert(is_walk(g, p1, u, v) && is_walk(g, p2, u, v));
}

/// A pair of vertices has exactly one matrix entry.
pub proof fn lemma_entry_unique(g: Digraph, u: int, v: int, e1: Option<i32>, e2: Option<i32>)
    requires
        is_entry(g, u, v, e1),
        is_entry(g, u, v, e2),
    ensures
        e1 == e2,
{
    if e1 is Some && e2 is Some {
        lemma_distance_unique(g, u, v, e1->Some_0 as int, e2->Some_0 as int);
    } else if e1 is Some {
        let p = choose|p: Seq<Link>| #[trigger]
            is_walk(g, p, u, v) && walk_weight(p) == e1->Some_0;
        assert(is_walk(g, p, u, v));
    } else if e2 is Some {
        let p = choose|p: Seq<Link>| #[trigger]
            is_walk(g, p, u, v) && walk_weight(p) == e2->Some_0;
        assert(is_walk(g, p, u, v));
    }
}

/// A graph has at most one distance matrix.
pub proof fn lemma_distance_matrix_unique(
    g: Digraph,
    m1: Seq<Seq<Option<i32>>>,
    m2: Seq<Seq<Option<i32>>>,
)
    requires
        is_distance_matrix(g, m1),
        is_distance_matrix(g, m2),
    ensures
        m1 == m2,
{
    assert forall|u: int| 0 <= u < m1.len() implies m1[u] == m2[u] by {
        assert forall|v: int| 0 <= v < m1[u].len() implies m1[u][v] == m2[u][v] by {
            lemma_entry_unique(g, u, v, m1[u][v], m2[u][v]);
        }
        assert(m1[u] =~= m2[u]);
    }
    assert(m1 =~= m2);
}

/// Without negative cycles, the distance from a vertex to itself is zero.
pub proof fn lemma_distance_to_self(g: Digraph, v: int)
    requires
        !has_negative_cycle(g),
        g.has_vertex(v),
    ensures
        is_distance(g, v, v, 0),
{
    lemma_empty_walk(g, v);
    assert(is_walk(g, Seq::<Link>::empty(), v, v));
    assert forall|p: Seq<Link>| #[trigger] is_walk(g, p, v, v) implies 0 <= walk_weight(p) by {}
}

/// Without negative cycles, the diagonal of the distance matrix is zero.
pub proof fn lemma_diagonal_is_zero(g: Digraph, m: Seq<Seq<Option<i32>>>, v: int)
    requires
        !has_negative_cycle(g),
        is_distance_matrix(g, m),
        g.has_vertex(v),
    ensures
        m[v][v] == Some(0i32),
{
    lemma_distance_to_self(g, v);
    assert(is_entry(g, v, v, m[v][v]));
    assert(is_entry(g, v, v, Some(0i32)));
    lemma_entry_unique(g, v, v, m[v][v], Some(0i32));
}

/// The triangle inequality: where `v` can be reached from `u` and `w` from
/// `v`, `w` can be reached from `u`, at no more than the two distances add
/// up to.
pub proof fn lemma_triangle_inequality(
    g: Digraph,
    m: Seq<Seq<Option<i32>>>,
    u: int,
    v: int,
    w: int,
)
    requires
        is_distance_matrix(g, m),
        g.has_vertex(u),
        g.has_vertex(v),
        g.has_vertex(w),
        m[u][v] is Some,
        m[v][w] is Some,
    ensures
        m[u][w] is Some,
        m[u][w]->Some_0 <= m[u][v]->Some_0 + m[v][w]->Some_0,
{
    assert(is_entry(g, u, v, m[u][v]));
    assert(is_entry(g, v, w, m[v][w]));
    assert(is_entry(g, u, w, m[u][w]));
    let p = choose|p: Seq<Link>| #[trigger]
        is_walk(g, p, u, v) && walk_weight(p) == m[u][v]->Some_0;
    let q = choose|q: Seq<Link>| #[trigger]
        is_walk(g, q, v, w) && walk_weight(q) == m[v][w]->Some_0;
    lemma_walk_concat(g, p, q, u, v, w);
    assert(is_walk(g, p + q, u, w));
}

/// Where no link weighs more than `bound` in either direction, and as many
/// such links as the graph has vertices stay within an `i32`, every shortest
/// distance fits in an `i32`.
pub proof fn lemma_bounded_links_fit(g: Digraph, bound: int)
    requires
        g.well_formed(),
        forall|l: Link| #[trigger] g.links.contains(l) ==> -bound <= l.weight <= bound,
        g.order * bound <= i32::MAX,
    ensures
        distances_fit(g),
{
    assert forall|u: int, v: int, d: int| #[trigger] is_distance(g, u, v, d) implies i32::MIN <= d
        <= i32::MAX by {
        let p = choose|p: Seq<Link>| #[trigger] is_walk(g, p, u, v) && walk_weight(p) == d;
        let q = lemma_distance_by_short_walk(g, u, v, d, p);
        lemma_weight_floor(g, q, u, v, -bound);
        lemma_weight_ceiling(g, q, u, v, bound);
        if q.len() > 0 {
            assert(g.links.contains(q[0])) by {
                lemma_walk_ends(g, q, u, v);
            }
            assert(0 <= bound);
            assert(q.len() * bound <= g.order * bound) by (nonlinear_arith)
                requires
                    q.len() <= g.order,
                    0 <= bound,
            ;
            assert(q.len() * (-bound) == -(q.len() * bound)) by (nonlinear_arith);
        }
    }
}

} // verus!
