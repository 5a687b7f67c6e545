//! The graph as the algorithms hold it: one list of outgoing edges per vertex.

use crate::graph::{Digraph, Link};
use vstd::prelude::*;

verus! {

/// An outgoing edge in a vertex's adjacency list.
#[derive(Clone, Copy, Debug, PartialEq, Eq)]
pub struct Edge {
    pub to: usize,
    pub weight: i64,
}

/// The link that entry `j` of vertex `u`'s list stands for.
pub open spec fn slot_link(adj: Seq<Vec<Edge>>, u: int, j: int) -> Link {
    Link { from: u, to: adj[u][j].to as int, weight: adj[u][j].weight as int }
}

/// The graph that an adjacency list stands for.
pub open spec fn graph_of(adj: Seq<Vec<Edge>>) -> Digraph {
    Digraph {
        order: adj.len(),
        links: Set::new(
            |l: Link|
                exists|u: int, j: int|
                    0 <= u < adj.len() && 0 <= j < adj[u].len() && #[trigger] slot_link(adj, u, j)
                        == l,
        ),
    }
}

/// Every edge of the list leads to a vertex of the graph.
pub open spec fn well_formed_adjacency(adj: Seq<Vec<Edge>>) -> bool {
    forall|u: int, j: int|
        0 <= u < adj.len() && 0 <= j < adj[u].len() ==> (#[trigger] adj[u][j]).to < adj.len()
}

/// No edge has a negative weight.
pub open spec fn nonnegative_weights(adj: Seq<Vec<Edge>>) -> bool {
    forall|u: int, j: int|
        0 <= u < adj.len() && 0 <= j < adj[u].len() ==> (#[trigger] adj[u][j]).weight >= 0
}

/// Every weight of the list is an `i32` value.
pub open spec fn weights_in_i32(adj: Seq<Vec<Edge>>) -> bool {
    forall|u: int, j: int|
        0 <= u < adj.len() && 0 <= j < adj[u].len() ==> i32::MIN <= (#[trigger] adj[u][j]).weight
            <= i32::MAX
}

/// A well-formed adjacency list stands for a well-formed graph.
pub proof fn lemma_graph_of_well_formed(adj: Seq<Vec<Edge>>)
    requires
        well_formed_adjacency(adj),
    ensures
        graph_of(adj).well_formed(),
{
    let g = graph_of(adj);
    assert forall|l: Link| #[trigger] g.links.contains(l) implies g.has_vertex(l.from)
        && g.has_vertex(l.to) by {
        let (u, j) = choose|u: int, j: int|
            0 <= u < adj.len() && 0 <= j < adj[u].len() && #[trigger] slot_link(adj, u, j) == l;
        assert(adj[u][j].to < adj.len());
    }
}

/// The link of a list entry belongs to the graph.
pub proof fn lemma_slot_is_link(adj: Seq<Vec<Edge>>, u: int, j: int)
    requires
        0 <= u < adj.len(),
        0 <= j < adj[u].len(),
    ensures
        graph_of(adj).links.contains(slot_link(adj, u, j)),
{
}

/// Every link of the graph is the link of some list entry.
pub proof fn lemma_link_slot(adj: Seq<Vec<Edge>>, l: Link) -> (j: int)
    requires
        graph_of(adj).links.contains(l),
    ensures
        0 <= l.from < adj.len(),
        0 <= j < adj[l.from].len(),
        slot_link(adj, l.from, j) == l,
{
    let (u, j) = choose|u: int, j: int|
        0 <= u < adj.len() && 0 <= j < adj[u].len() && #[trigger] slot_link(adj, u, j) == l;
    j
}

/// The edges of an edge list that leave `u`, in the order of the list.
pub open spec fn outgoing(edges: Seq<(usize, usize, i32)>, u: int) -> Seq<Edge>
    decreases edges.len(),
{
    if edges.len() == 0 {
        Seq::empty()
    } else {
        let before = outgoing(edges.drop_last(), u);
        let e = edges.last();
        if e.0 == u {
            before.push(Edge { to: e.1, weight: e.2 as i64 })
        } else {
            before
        }
    }
}

/// The link that an entry of an edge list stands for.
pub open spec fn edge_link(e: (usize, usize, i32)) -> Link {
    Link { from: e.0 as int, to: e.1 as int, weight: e.2 as int }
}

/// The graph that an edge list on `num_nodes` vertices stands for.
pub open spec fn edge_list_graph(num_nodes: nat, edges: Seq<(usize, usize, i32)>) -> Digraph {
    Digraph {
        order: num_nodes,
        links: Set::new(
            |l: Link| exists|i: int| 0 <= i < edges.len() && edge_link(#[trigger] edges[i]) == l,
        ),
    }
}

/// Both ends of every edge are vertices.
pub open spec fn edges_in_range(num_nodes: nat, edges: Seq<(usize, usize, i32)>) -> bool {
    forall|i: int|
        0 <= i < edges.len() ==> (#[trigger] edges[i]).0 < num_nodes && edges[i].1 < num_nodes
}

/// `adj` lists, for each vertex, exactly the edges of `edges` that leave it,
/// in their order in `edges`.
pub open spec fn lists_edges(adj: Seq<Vec<Edge>>, edges: Seq<(usize, usize, i32)>) -> bool {
    forall|u: int| 0 <= u < adj.len() ==> (#[trigger] adj[u])@ == outgoing(edges, u)
}

proof fn lemma_outgoing_sound(edges: Seq<(usize, usize, i32)>, u: int, j: int) -> (i: int)
    requires
        0 <= j < outgoing(edges, u).len(),
    ensures
        0 <= i < edges.len(),
        edges[i].0 == u,
        outgoing(edges, u)[j] == (Edge { to: edges[i].1, weight: edges[i].2 as i64 }),
    decreases edges.len(),
{
    let before = outgoing(edges.drop_last(), u);
    if j < before.len() {
        lemma_outgoing_sound(edges.drop_last(), u, j)
    } else {
        edges.len() - 1
    }
}

proof fn lemma_outgoing_complete(edges: Seq<(usize, usize, i32)>, i: int) -> (j: int)
    requires
        0 <= i < edges.len(),
    ensures
        0 <= j < outgoing(edges, edges[i].0 as int).len(),
        outgoing(edges, edges[i].0 as int)[j] == (Edge {
            to: edges[i].1,
            weight: edges[i].2 as i64,
        }),
    decreases edges.len(),
{
    let u = edges[i].0 as int;
    let before = outgoing(edges.drop_last(), u);
    if i < edges.len() - 1 {
        lemma_outgoing_complete(edges.drop_last(), i)
    } else {
        before.len() as int
    }
}

/// An adjacency list that lists an edge list stands for the same graph.
pub proof fn lemma_lists_edges_same_graph(adj: Seq<Vec<Edge>>, edges: Seq<(usize, usize, i32)>)
    requires
        lists_edges(adj, edges),
        edges_in_range(adj.len(), edges),
    ensures
        graph_of(adj) == edge_list_graph(adj.len(), edges),
        well_formed_adjacency(adj),
        weights_in_i32(adj),
{
    let g = graph_of(adj);
    let h = edge_list_graph(adj.len(), edges);
    assert forall|u: int, j: int| 0 <= u < adj.len() && 0 <= j < adj[u].len() implies (
    #[trigger] adj[u][j]).to < adj.len() && i32::MIN <= adj[u][j].weight <= i32::MAX by {
        assert(adj[u]@ == outgoing(edges, u));
        let i = lemma_outgoing_sound(edges, u, j);
    }
    assert forall|l: Link| g.links.contains(l) implies h.links.contains(l) by {
        let j = lemma_link_slot(adj, l);
        assert(adj[l.from]@ == outgoing(edges, l.from));
        let i = lemma_outgoing_sound(edges, l.from, j);
        assert(edge_link(edges[i]) == l);
    }
    assert forall|l: Link| h.links.contains(l) implies g.links.contains(l) by {
        let i = choose|i: int| 0 <= i < edges.len() && edge_link(#[trigger] edges[i]) == l;
        let j = lemma_outgoing_complete(edges, i);
        assert(adj[l.from]@ == outgoing(edges, l.from));
        assert(slot_link(adj, l.from, j) == l);
    }
    assert(g.links =~= h.links);
}

/// Builds the adjacency list of an edge list on `num_nodes` vertices.
pub fn build_adjacency(num_nodes: usize, edges: &Vec<(usize, usize, i32)>) -> (adj: Vec<Vec<Edge>>)
    requires
        edges_in_range(num_nodes as nat, edges@),
    ensures
        adj.len() == num_nodes,
        lists_edges(adj@, edges@),
        graph_of(adj@) == edge_list_graph(num_nodes as nat, edges@),
        well_formed_adjacency(adj@),
        weights_in_i32(adj@),
{
    let mut adj: Vec<Vec<Edge>> = Vec::new();
    while adj.len() < num_nodes
        invariant
            adj.len() <= num_nodes,
            forall|u: int| 0 <= u < adj.len() ==> (#[trigger] adj[u])@ == Seq::<Edge>::empty(),
        decreases num_nodes - adj.len(),
    {
        adj.push(Vec::new());
    }
    let mut i: usize = 0;
    while i < edges.len()
        invariant
            i <= edges.len(),
            adj.len() == num_nodes,
            edges_in_range(num_nodes as nat, edges@),
            lists_edges(adj@, edges@.take(i as int)),
        decreases edges.len() - i,
    {
        let (u, v, w) = edges[i];
        let ghost before = adj@;
        adj[u].push(Edge { to: v, weight: w as i64 });
        proof {
            assert(edges@.take(i + 1).drop_last() =~= edges@.take(i as int));
            assert(edges@.take(i + 1).last() == edges[i as int]);
            assert forall|x: int| 0 <= x < adj.len() implies (#[trigger] adj[x])@ == outgoing(
                edges@.take(i + 1),
                x,
            ) by {
                assert(before[x]@ == outgoing(edges@.take(i as int), x));
            }
        }
        i += 1;
    }
    proof {
        assert(edges@.take(edges.len() as int) =~= edges@);
        lemma_lists_edges_same_graph(adj@, edges@);
    }
    adj
}

} // verus!
