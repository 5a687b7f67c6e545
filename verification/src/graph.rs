//! The mathematical model: directed weighted graphs, walks and distances.

use vstd::prelude::*;
use vstd::set_lib::{lemma_int_range, lemma_len_subset, set_int_range};

verus! {

/// One directed connection from vertex `from` to vertex `to`.
pub struct Link {
    pub from: int,
    pub to: int,
    pub weight: int,
}

/// A directed weighted graph with vertices `0 .. order`.
///
/// Two links between the same ordered pair of vertices are different members
/// of `links` exactly when their weights differ; equal copies add nothing to
/// any distance.
pub struct Digraph {
    pub order: nat,
    pub links: Set<Link>,
}

impl Digraph {
    /// `v` is one of the vertices `0 .. order`.
    pub open spec fn has_vertex(self, v: int) -> bool {
        0 <= v < self.order
    }

    /// Every link joins two vertices of the graph.
    pub open spec fn well_formed(self) -> bool {
        forall|l: Link| #[trigger]
            self.links.contains(l) ==> self.has_vertex(l.from) && self.has_vertex(l.to)
    }
}

/// `p` is a walk in `g` from `u` to `v`: a sequence of links of `g`, each
/// starting where the one before ends. The empty sequence is a walk from
/// every vertex to itself.
#[verifier::opaque]
pub open spec fn is_walk(g: Digraph, p: Seq<Link>, u: int, v: int) -> bool {
    &&& g.has_vertex(u)
    &&& g.has_vertex(v)
    &&& forall|i: int| 0 <= i < p.len() ==> g.links.contains(#[trigger] p[i])
    &&& forall|i: int, j: int|
        0 <= i && j == i + 1 && j < p.len() ==> (#[trigger] p[i]).to == (#[trigger] p[j]).from
    &&& if p.len() == 0 {
        u == v
    } else {
        p[0].from == u && p[p.len() - 1].to == v
    }
}

/// The sum of the weights along `p`.
pub open spec fn walk_weight(p: Seq<Link>) -> int
    decreases p.len(),
{
    if p.len() == 0 {
        0
    } else {
        walk_weight(p.drop_last()) + p.last().weight
    }
}

/// The vertex that a walk `p` starting at `u` stands on after `i` links.
pub open spec fn walk_vertex(p: Seq<Link>, u: int, i: int) -> int {
    if i == 0 {
        u
    } else {
        p[i - 1].to
    }
}

/// Some closed walk of `g` has negative weight.
pub open spec fn has_negative_cycle(g: Digraph) -> bool {
    exists|p: Seq<Link>, u: int| #[trigger] is_walk(g, p, u, u) && walk_weight(p) < 0
}

/// There is a walk from `u` to `v`.
pub open spec fn reachable(g: Digraph, u: int, v: int) -> bool {
    exists|p: Seq<Link>| is_walk(g, p, u, v)
}

/// Some walk from `u` to `v` weighs exactly `d`.
pub open spec fn attained(g: Digraph, u: int, v: int, d: int) -> bool {
    exists|p: Seq<Link>| #[trigger] is_walk(g, p, u, v) && walk_weight(p) == d
}

/// No walk from `u` to `v` weighs less than `d`.
pub open spec fn is_lower_bound(g: Digraph, u: int, v: int, d: int) -> bool {
    forall|p: Seq<Link>| #[trigger] is_walk(g, p, u, v) ==> d <= walk_weight(p)
}

/// `d` is the shortest distance from `u` to `v`: the least weight of a walk.
pub open spec fn is_distance(g: Digraph, u: int, v: int, d: int) -> bool {
    attained(g, u, v, d) && is_lower_bound(g, u, v, d)
}

/// The empty walk leads from any vertex to itself and weighs nothing.
pub proof fn lemma_empty_walk(g: Digraph, u: int)
    requires
        g.has_vertex(u),
    ensures
        is_walk(g, Seq::<Link>::empty(), u, u),
        walk_weight(Seq::<Link>::empty()) == 0,
{
    reveal(is_walk);
}

/// The ends of a walk are vertices, and so are the ends of each of its links.
pub proof fn lemma_walk_ends(g: Digraph, p: Seq<Link>, u: int, v: int)
    requires
        is_walk(g, p, u, v),
    ensures
        g.has_vertex(u),
        g.has_vertex(v),
        p.len() == 0 ==> u == v,
        forall|i: int| 0 <= i < p.len() ==> g.links.contains(#[trigger] p[i]),
{
    reveal(is_walk);
}

/// A walk followed by a link that leaves its end is a walk to that link's end.
pub proof fn lemma_walk_push(g: Digraph, p: Seq<Link>, u: int, l: Link)
    requires
        g.well_formed(),
        is_walk(g, p, u, l.from),
        g.links.contains(l),
    ensures
        is_walk(g, p.push(l), u, l.to),
        walk_weight(p.push(l)) == walk_weight(p) + l.weight,
{
    reveal(is_walk);
    let q = p.push(l);
    assert(q.drop_last() =~= p);
    assert forall|i: int, j: int| 0 <= i && j == i + 1 && j < q.len() implies (#[trigger] q[i]).to
        == (#[trigger] q[j]).from by {
        assert(q[i] == p[i]);
        if j < p.len() {
            assert(q[j] == p[j]);
        }
    }
}

/// A non-empty walk is a walk to the start of its last link, followed by that link.
pub proof fn lemma_walk_pop(g: Digraph, p: Seq<Link>, u: int, v: int)
    requires
        g.well_formed(),
        is_walk(g, p, u, v),
        p.len() > 0,
    ensures
        is_walk(g, p.drop_last(), u, p.last().from),
        g.links.contains(p.last()),
        p.last().to == v,
        walk_weight(p) == walk_weight(p.drop_last()) + p.last().weight,
{
    reveal(is_walk);
    let q = p.drop_last();
    assert(g.links.contains(p[p.len() - 1]));
    assert forall|i: int, j: int| 0 <= i && j == i + 1 && j < q.len() implies (#[trigger] q[i]).to
        == (#[trigger] q[j]).from by {
        assert(q[i] == p[i]);
        assert(q[j] == p[j]);
    }
    if q.len() > 0 {
        assert(q[q.len() - 1] == p[q.len() - 1]);
        assert(p[q.len() - 1].to == p[q.len() as int].from);
        assert(q[0] == p[0]);
    }
}

/// The weight of two sequences of links joined is the sum of their weights.
pub proof fn lemma_weight_concat(a: Seq<Link>, b: Seq<Link>)
    ensures
        walk_weight(a + b) == walk_weight(a) + walk_weight(b),
    decreases b.len(),
{
    if b.len() == 0 {
        assert(a + b =~= a);
    } else {
        assert((a + b).drop_last() =~= a + b.drop_last());
        assert((a + b).last() == b.last());
        lemma_weight_concat(a, b.drop_last());
    }
}

/// Two walks that meet end to start make one walk, and their weights add up.
pub proof fn lemma_walk_concat(g: Digraph, a: Seq<Link>, b: Seq<Link>, u: int, x: int, v: int)
    requires
        is_walk(g, a, u, x),
        is_walk(g, b, x, v),
    ensures
        is_walk(g, a + b, u, v),
        walk_weight(a + b) == walk_weight(a) + walk_weight(b),
{
    reveal(is_walk);
    lemma_weight_concat(a, b);
    let q = a + b;
    assert forall|i: int| 0 <= i < q.len() implies g.links.contains(#[trigger] q[i]) by {
        if i < a.len() {
            assert(q[i] == a[i]);
        } else {
            assert(q[i] == b[i - a.len()]);
        }
    }
    assert forall|i: int, j: int| 0 <= i && j == i + 1 && j < q.len() implies (#[trigger] q[i]).to
        == (#[trigger] q[j]).from by {
        if j < a.len() {
            assert(q[i] == a[i] && q[j] == a[j]);
        } else if i < a.len() {
            assert(q[i] == a[a.len() - 1] && q[j] == b[0]);
        } else {
            assert(q[i] == b[i - a.len()] && q[j] == b[j - a.len()]);
        }
    }
    if a.len() > 0 {
        assert(q[0] == a[0]);
    } else if b.len() > 0 {
        assert(q[0] == b[0]);
    }
    if b.len() > 0 {
        assert(q[q.len() - 1] == b[b.len() - 1]);
    } else if a.len() > 0 {
        assert(q[q.len() - 1] == a[a.len() - 1]);
    }
}

/// Any stretch of a walk is a walk between the vertices it passes there.
pub proof fn lemma_walk_slice(g: Digraph, p: Seq<Link>, u: int, v: int, i: int, j: int)
    requires
        g.well_formed(),
        is_walk(g, p, u, v),
        0 <= i <= j <= p.len(),
    ensures
        is_walk(g, p.subrange(i, j), walk_vertex(p, u, i), walk_vertex(p, u, j)),
        walk_vertex(p, u, p.len() as int) == v,
        i < p.len() ==> walk_vertex(p, u, i) == p[i].from,
{
    reveal(is_walk);
    let q = p.subrange(i, j);
    if i > 0 {
        assert(g.links.contains(p[i - 1]));
        if i < p.len() {
            assert(p[i - 1].to == p[i].from);
        }
    }
    if j > 0 {
        assert(g.links.contains(p[j - 1]));
    }
    assert forall|k: int| 0 <= k < q.len() implies g.links.contains(#[trigger] q[k]) by {
        assert(q[k] == p[i + k]);
    }
    assert forall|k: int, m: int| 0 <= k && m == k + 1 && m < q.len() implies (#[trigger] q[k]).to
        == (#[trigger] q[m]).from by {
        assert(q[k] == p[i + k] && q[m] == p[i + m]);
    }
    if q.len() > 0 {
        assert(q[0] == p[i]);
        assert(q[q.len() - 1] == p[j - 1]);
    }
}

/// A walk with more links than the graph has vertices leaves some vertex twice.
proof fn lemma_repeated_start(g: Digraph, p: Seq<Link>, u: int, v: int) -> (r: (int, int))
    requires
        g.well_formed(),
        is_walk(g, p, u, v),
        p.len() > g.order,
    ensures
        0 <= r.0 < r.1 < p.len(),
        p[r.0].from == p[r.1].from,
{
    lemma_walk_ends(g, p, u, v);
    let s = Seq::new(p.len(), |i: int| p[i].from);
    if s.no_duplicates() {
        s.unique_seq_to_set();
        lemma_int_range(0, g.order as int);
        assert forall|x: int| s.to_set().contains(x) implies set_int_range(
            0,
            g.order as int,
        ).contains(x) by {
            let i = choose|i: int| 0 <= i < s.len() && s[i] == x;
            assert(g.links.contains(p[i]));
        }
        lemma_len_subset(s.to_set(), set_int_range(0, g.order as int));
        assert(false);
    }
    let (i, j) = choose|i: int, j: int|
        0 <= i < s.len() && 0 <= j < s.len() && i != j && s[i] == s[j];
    if i < j {
        (i, j)
    } else {
        (j, i)
    }
}

/// A walk with more links than the graph has vertices passes through a closed
/// stretch. The result is the walk without that stretch, the stretch itself
/// and the vertex where it is anchored; going round the stretch once more
/// gives yet another walk between the same ends.
pub proof fn lemma_cut_cycle(g: Digraph, p: Seq<Link>, u: int, v: int) -> (r: (
    Seq<Link>,
    Seq<Link>,
    int,
))
    requires
        g.well_formed(),
        is_walk(g, p, u, v),
        p.len() > g.order,
    ensures
        is_walk(g, r.0, u, v),
        is_walk(g, r.1, r.2, r.2),
        r.0.len() < p.len(),
        walk_weight(p) == walk_weight(r.0) + walk_weight(r.1),
        attained(g, u, v, walk_weight(p) + walk_weight(r.1)),
{
    let (i, j) = lemma_repeated_start(g, p, u, v);
    let a = p.subrange(0, i);
    let c = p.subrange(i, j);
    let b = p.subrange(j, p.len() as int);
    let x = p[i].from;
    lemma_walk_slice(g, p, u, v, 0, i);
    lemma_walk_slice(g, p, u, v, i, j);
    lemma_walk_slice(g, p, u, v, j, p.len() as int);
    lemma_walk_concat(g, a, b, u, x, v);
    lemma_walk_concat(g, a, c, u, x, x);
    lemma_walk_concat(g, a + c, b, u, x, v);
    assert(a + c + b =~= p);
    lemma_walk_concat(g, a + c, c, u, x, x);
    lemma_walk_concat(g, a + c + c, b, u, x, v);
    assert(is_walk(g, a + c + c + b, u, v));
    (a + b, c, x)
}

/// Without negative cycles, every walk can be replaced by one that is no
/// heavier and has no more links than the graph has vertices.
pub proof fn lemma_shorten_walk(g: Digraph, p: Seq<Link>, u: int, v: int) -> (q: Seq<Link>)
    requires
        g.well_formed(),
        !has_negative_cycle(g),
        is_walk(g, p, u, v),
    ensures
        is_walk(g, q, u, v),
        q.len() <= g.order,
        walk_weight(q) <= walk_weight(p),
    decreases p.len(),
{
    if p.len() <= g.order {
        p
    } else {
        let (shorter, cycle, x) = lemma_cut_cycle(g, p, u, v);
        assert(is_walk(g, cycle, x, x));
        lemma_shorten_walk(g, shorter, u, v)
    }
}

/// A walk weighs at least as much as its links would if each had the least
/// weight `floor` that a link of the graph may have.
pub proof fn lemma_weight_floor(g: Digraph, p: Seq<Link>, u: int, v: int, floor: int)
    requires
        g.well_formed(),
        is_walk(g, p, u, v),
        forall|l: Link| #[trigger] g.links.contains(l) ==> floor <= l.weight,
    ensures
        p.len() * floor <= walk_weight(p),
    decreases p.len(),
{
    if p.len() > 0 {
        lemma_walk_pop(g, p, u, v);
        lemma_weight_floor(g, p.drop_last(), u, p.last().from, floor);
        assert((p.len() - 1) * floor + floor == p.len() * floor) by (nonlinear_arith);
    }
}

/// As `lemma_weight_floor`, from above.
pub proof fn lemma_weight_ceiling(g: Digraph, p: Seq<Link>, u: int, v: int, ceiling: int)
    requires
        g.well_formed(),
        is_walk(g, p, u, v),
        forall|l: Link| #[trigger] g.links.contains(l) ==> l.weight <= ceiling,
    ensures
        walk_weight(p) <= p.len() * ceiling,
    decreases p.len(),
{
    if p.len() > 0 {
        lemma_walk_pop(g, p, u, v);
        lemma_weight_ceiling(g, p.drop_last(), u, p.last().from, ceiling);
        assert((p.len() - 1) * ceiling + ceiling == p.len() * ceiling) by (nonlinear_arith);
    }
}

/// A shortest distance is the weight of a walk with no more links than the
/// graph has vertices.
pub proof fn lemma_distance_by_short_walk(g: Digraph, u: int, v: int, d: int, p: Seq<Link>) -> (q:
    Seq<Link>)
    requires
        g.well_formed(),
        is_distance(g, u, v, d),
        is_walk(g, p, u, v),
        walk_weight(p) == d,
    ensures
        is_walk(g, q, u, v),
        walk_weight(q) == d,
        q.len() <= g.order,
    decreases p.len(),
{
    if p.len() <= g.order {
        p
    } else {
        let (shorter, cycle, x) = lemma_cut_cycle(g, p, u, v);
        assert(attained(g, u, v, d + walk_weight(cycle)));
        let again = choose|r: Seq<Link>| #[trigger]
            is_walk(g, r, u, v) && walk_weight(r) == d + walk_weight(cycle);
        assert(is_walk(g, again, u, v));
        assert(is_walk(g, shorter, u, v));
        lemma_distance_by_short_walk(g, u, v, d, shorter)
    }
}

} // verus!
