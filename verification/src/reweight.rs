//! Reweighting by potentials: every link from `u` to `v` gains the potential
//! of `u` and loses that of `v`. All walks between the same two vertices
//! change by the same amount, so shortest walks stay shortest.

use crate::adjacency::{graph_of, lemma_graph_of_well_formed, lemma_link_slot, lemma_slot_is_link,
    nonnegative_weights, slot_link, well_formed_adjacency, Edge};
use crate::graph::{is_distance, is_walk, lemma_empty_walk, lemma_walk_ends, lemma_walk_pop,
    lemma_walk_push, reachable, walk_weight, Digraph, Link};
use crate::potential::{is_potential, potentials_of};
use vstd::prelude::*;

verus! {

/// The link `l` with its weight shifted by the potentials `h`.
pub open spec fn shift_link(l: Link, h: Seq<i64>) -> Link {
    Link { from: l.from, to: l.to, weight: l.weight + h[l.from] - h[l.to] }
}

/// The link whose shifted form is `l`.
pub open spec fn unshift_link(l: Link, h: Seq<i64>) -> Link {
    Link { from: l.from, to: l.to, weight: l.weight - h[l.from] + h[l.to] }
}

/// The graph `g` with every link shifted by the potentials `h`.
pub open spec fn shifted(g: Digraph, h: Seq<i64>) -> Digraph {
    Digraph { order: g.order, links: Set::new(|l: Link| g.links.contains(unshift_link(l, h))) }
}

/// The walk `p` with every link shifted.
pub open spec fn shift_walk(p: Seq<Link>, h: Seq<i64>) -> Seq<Link> {
    Seq::new(p.len(), |i: int| shift_link(p[i], h))
}

/// The walk whose shifted form is `p`.
pub open spec fn unshift_walk(p: Seq<Link>, h: Seq<i64>) -> Seq<Link> {
    Seq::new(p.len(), |i: int| unshift_link(p[i], h))
}

/// Shifting keeps every link between the same two vertices.
pub proof fn lemma_shifted_well_formed(g: Digraph, h: Seq<i64>)
    requires
        g.well_formed(),
    ensures
        shifted(g, h).well_formed(),
{
    let s = shifted(g, h);
    assert forall|l: Link| #[trigger] s.links.contains(l) implies s.has_vertex(l.from)
        && s.has_vertex(l.to) by {
        assert(g.links.contains(unshift_link(l, h)));
    }
}

/// A walk of `g`, shifted, is a walk of the shifted graph between the same
/// ends; its weight changes by the difference of the ends' potentials.
pub proof fn lemma_shift_walk(g: Digraph, h: Seq<i64>, p: Seq<Link>, u: int, v: int)
    requires
        g.well_formed(),
        is_walk(g, p, u, v),
    ensures
        is_walk(shifted(g, h), shift_walk(p, h), u, v),
        walk_weight(shift_walk(p, h)) == walk_weight(p) + h[u] - h[v],
    decreases p.len(),
{
    let s = shifted(g, h);
    lemma_shifted_well_formed(g, h);
    lemma_walk_ends(g, p, u, v);
    if p.len() == 0 {
        lemma_empty_walk(s, u);
        assert(shift_walk(p, h) =~= Seq::<Link>::empty());
    } else {
        lemma_walk_pop(g, p, u, v);
        let l = p.last();
        lemma_shift_walk(g, h, p.drop_last(), u, l.from);
        assert(unshift_link(shift_link(l, h), h) == l);
        lemma_walk_push(s, shift_walk(p.drop_last(), h), u, shift_link(l, h));
        assert(shift_walk(p.drop_last(), h).push(shift_link(l, h)) =~= shift_walk(p, h));
    }
}

/// The converse of `lemma_shift_walk`.
pub proof fn lemma_unshift_walk(g: Digraph, h: Seq<i64>, p: Seq<Link>, u: int, v: int)
    requires
        g.well_formed(),
        is_walk(shifted(g, h), p, u, v),
    ensures
        is_walk(g, unshift_walk(p, h), u, v),
        walk_weight(unshift_walk(p, h)) == walk_weight(p) - h[u] + h[v],
    decreases p.len(),
{
    let s = shifted(g, h);
    lemma_shifted_well_formed(g, h);
    lemma_walk_ends(s, p, u, v);
    if p.len() == 0 {
        lemma_empty_walk(g, u);
        assert(unshift_walk(p, h) =~= Seq::<Link>::empty());
    } else {
        lemma_walk_pop(s, p, u, v);
        let l = p.last();
        lemma_unshift_walk(g, h, p.drop_last(), u, l.from);
        lemma_walk_push(g, unshift_walk(p.drop_last(), h), u, unshift_link(l, h));
        assert(unshift_walk(p.drop_last(), h).push(unshift_link(l, h)) =~= unshift_walk(p, h));
    }
}

/// A shortest distance of the shifted graph, shifted back, is the shortest
/// distance of `g`.
pub proof fn lemma_distance_unshifted(g: Digraph, h: Seq<i64>, u: int, v: int, d: int)
    requires
        g.well_formed(),
        is_distance(shifted(g, h), u, v, d),
    ensures
        is_distance(g, u, v, d - h[u] + h[v]),
{
    let s = shifted(g, h);
    let q = choose|q: Seq<Link>| #[trigger] is_walk(s, q, u, v) && walk_weight(q) == d;
    lemma_unshift_walk(g, h, q, u, v);
    assert(is_walk(g, unshift_walk(q, h), u, v));
    assert forall|p: Seq<Link>| #[trigger] is_walk(g, p, u, v) implies d - h[u] + h[v]
        <= walk_weight(p) by {
        lemma_shift_walk(g, h, p, u, v);
        assert(is_walk(s, shift_walk(p, h), u, v));
    }
}

/// What can be reached in `g` can be reached in the shifted graph.
pub proof fn lemma_reachable_shifted(g: Digraph, h: Seq<i64>, u: int, v: int)
    requires
        g.well_formed(),
        reachable(g, u, v),
    ensures
        reachable(shifted(g, h), u, v),
{
    let p = choose|p: Seq<Link>| is_walk(g, p, u, v);
    lemma_shift_walk(g, h, p, u, v);
}

/// Shifted by its potentials, a graph has no link of negative weight.
pub proof fn lemma_reweighted_nonnegative(g: Digraph, h: Seq<i64>)
    requires
        g.well_formed(),
        potentials_of(g, h),
    ensures
        forall|l: Link| #[trigger] shifted(g, h).links.contains(l) ==> l.weight >= 0,
{
    assert forall|l: Link| #[trigger] shifted(g, h).links.contains(l) implies l.weight >= 0 by {
        let m = unshift_link(l, h);
        assert(g.links.contains(m));
        assert(is_potential(g, m.from, h[m.from] as int));
        assert(is_potential(g, m.to, h[m.to] as int));
        let (p, a) = choose|p: Seq<Link>, a: int| #[trigger]
            is_walk(g, p, a, m.from) && walk_weight(p) == h[m.from];
        lemma_walk_push(g, p, a, m);
        assert(is_walk(g, p.push(m), a, m.to));
    }
}

/// The weight that entry `j` of vertex `u`'s list has after reweighting.
pub open spec fn reweighted(adj: Seq<Vec<Edge>>, h: Seq<i64>, u: int, j: int) -> int {
    adj[u][j].weight + h[u] - h[adj[u][j].to as int]
}

/// Every reweighted weight can be held in an `i64`.
pub open spec fn reweighting_fits(adj: Seq<Vec<Edge>>, h: Seq<i64>) -> bool {
    forall|u: int, j: int|
        0 <= u < adj.len() && 0 <= j < adj[u].len() ==> i64::MIN <= #[trigger] reweighted(
            adj,
            h,
            u,
            j,
        ) <= i64::MAX
}

/// `out` is `adj` with the same edges in the same places, each reweighted.
pub open spec fn is_reweighting(adj: Seq<Vec<Edge>>, h: Seq<i64>, out: Seq<Vec<Edge>>) -> bool {
    &&& out.len() == adj.len()
    &&& forall|u: int| 0 <= u < adj.len() ==> (#[trigger] out[u]).len() == adj[u].len()
    &&& forall|u: int, j: int|
        0 <= u < adj.len() && 0 <= j < adj[u].len() ==> (#[trigger] out[u][j]).to == adj[u][j].to
            && out[u][j].weight == reweighted(adj, h, u, j)
}

/// A reweighted adjacency list stands for the shifted graph.
pub proof fn lemma_reweighting_is_shift(adj: Seq<Vec<Edge>>, h: Seq<i64>, out: Seq<Vec<Edge>>)
    requires
        well_formed_adjacency(adj),
        h.len() == adj.len(),
        is_reweighting(adj, h, out),
    ensures
        well_formed_adjacency(out),
        graph_of(out) == shifted(graph_of(adj), h),
{
    let g = graph_of(adj);
    let s = shifted(g, h);
    let o = graph_of(out);
    assert forall|u: int, j: int| 0 <= u < out.len() && 0 <= j < out[u].len() implies (
    #[trigger] out[u][j]).to < out.len() by {
        assert(adj[u][j].to < adj.len());
    }
    assert forall|l: Link| o.links.contains(l) implies s.links.contains(l) by {
        let j = lemma_link_slot(out, l);
        assert(out[l.from][j].to == adj[l.from][j].to);
        lemma_slot_is_link(adj, l.from, j);
        assert(slot_link(adj, l.from, j) == unshift_link(l, h));
    }
    assert forall|l: Link| s.links.contains(l) implies o.links.contains(l) by {
        let m = unshift_link(l, h);
        let j = lemma_link_slot(adj, m);
        assert(out[m.from][j].to == adj[m.from][j].to);
        assert(slot_link(out, m.from, j) == l);
    }
    assert(o.links =~= s.links);
}

/// Reweighted by the potentials of its graph, an adjacency list has no edge
/// of negative weight.
pub proof fn lemma_reweighting_nonnegative(adj: Seq<Vec<Edge>>, h: Seq<i64>, out: Seq<Vec<Edge>>)
    requires
        well_formed_adjacency(adj),
        potentials_of(graph_of(adj), h),
        is_reweighting(adj, h, out),
    ensures
        nonnegative_weights(out),
{
    lemma_graph_of_well_formed(adj);
    lemma_reweighted_nonnegative(graph_of(adj), h);
    lemma_reweighting_is_shift(adj, h, out);
    assert forall|u: int, j: int| 0 <= u < out.len() && 0 <= j < out[u].len() implies (
    #[trigger] out[u][j]).weight >= 0 by {
        lemma_slot_is_link(out, u, j);
    }
}

/// Reweights one vertex's list.
fn reweight_list(adj_list: &Vec<Vec<Edge>>, potential: &Vec<i64>, u: usize) -> (row: Vec<Edge>)
    requires
        u < adj_list.len(),
        well_formed_adjacency(adj_list@),
        potential.len() == adj_list.len(),
        reweighting_fits(adj_list@, potential@),
    ensures
        row.len() == adj_list[u as int].len(),
        forall|j: int|
            0 <= j < row.len() ==> (#[trigger] row[j]).to == adj_list[u as int][j].to
                && row[j].weight == reweighted(adj_list@, potential@, u as int, j),
{
    let mut row: Vec<Edge> = Vec::new();
    let mut j: usize = 0;
    while j < adj_list[u].len()
        invariant
            u < adj_list.len(),
            well_formed_adjacency(adj_list@),
            potential.len() == adj_list.len(),
            reweighting_fits(adj_list@, potential@),
            j <= adj_list[u as int].len(),
            row.len() == j,
            forall|k: int|
                0 <= k < j ==> (#[trigger] row[k]).to == adj_list[u as int][k].to && row[k].weight
                    == reweighted(adj_list@, potential@, u as int, k),
        decreases adj_list[u as int].len() - j,
    {
        let to = adj_list[u][j].to;
        let weight = adj_list[u][j].weight;
        assert(i64::MIN <= reweighted(adj_list@, potential@, u as int, j as int) <= i64::MAX);
        let shifted_weight = (weight as i128 + potential[u] as i128 - potential[to] as i128) as i64;
        row.push(Edge { to, weight: shifted_weight });
        j += 1;
    }
    row
}

/// Builds the reweighted graph: the same edges in the same places, each with
/// weight `w + potential[u] - potential[v]` for an edge from `u` to `v`.
pub fn reweight(adj_list: &Vec<Vec<Edge>>, potential: &Vec<i64>) -> (out: Vec<Vec<Edge>>)
    requires
        well_formed_adjacency(adj_list@),
        potential.len() == adj_list.len(),
        reweighting_fits(adj_list@, potential@),
    ensures
        is_reweighting(adj_list@, potential@, out@),
        well_formed_adjacency(out@),
        graph_of(out@) == shifted(graph_of(adj_list@), potential@),
{
    let mut out: Vec<Vec<Edge>> = Vec::new();
    let mut u: usize = 0;
    while u < adj_list.len()
        invariant
            u <= adj_list.len(),
            out.len() == u,
            well_formed_adjacency(adj_list@),
            potential.len() == adj_list.len(),
            reweighting_fits(adj_list@, potential@),
            forall|x: int| 0 <= x < u ==> (#[trigger] out[x]).len() == adj_list[x].len(),
            forall|x: int, j: int|
                0 <= x < u && 0 <= j < adj_list[x].len() ==> (#[trigger] out[x][j]).to
                    == adj_list[x][j].to && out[x][j].weight == reweighted(
                    adj_list@,
                    potential@,
                    x,
                    j,
                ),
        decreases adj_list.len() - u,
    {
        let row = reweight_list(adj_list, potential, u);
        out.push(row);
        u += 1;
    }
    proof {
        lemma_reweighting_is_shift(adj_list@, potential@, out@);
    }
    out
}

} // verus!
