//! The vocabulary in which the graph queries are specified: edges, walks,
//! shortest walks, distances and eccentricities over an adjacency map.

use vstd::prelude::*;

verus! {

/// `a -> b` is an edge of `g`.
pub open spec fn has_edge(g: Map<usize, Set<usize>>, a: usize, b: usize) -> bool {
    g.contains_key(a) && g[a].contains(b)
}

/// The pair at positions `i` and `i + 1` of `p` is an edge of `g`.
pub open spec fn edge_at(g: Map<usize, Set<usize>>, p: Seq<usize>, i: int) -> bool {
    has_edge(g, p[i], p[i + 1])
}

/// `p` is a walk in `g`: it names at least one node and every two
/// consecutive nodes are joined by an edge.
pub open spec fn is_walk(g: Map<usize, Set<usize>>, p: Seq<usize>) -> bool {
    &&& p.len() > 0
    &&& forall|i: int| 0 <= i < p.len() - 1 ==> #[trigger] edge_at(g, p, i)
}

/// `p` is a walk in `g` that starts at `a`.
pub open spec fn walk_from(g: Map<usize, Set<usize>>, a: usize, p: Seq<usize>) -> bool {
    is_walk(g, p) && p[0] == a
}

/// `p` is a walk in `g` from `a` to `b`.
pub open spec fn walk_between(g: Map<usize, Set<usize>>, a: usize, b: usize, p: Seq<usize>) -> bool {
    walk_from(g, a, p) && p.last() == b
}

/// Some walk leads from `a` to `b`.
pub open spec fn reachable(g: Map<usize, Set<usize>>, a: usize, b: usize) -> bool {
    exists|p: Seq<usize>| walk_between(g, a, b, p)
}

/// `p` leads from `a` to `b` and no walk from `a` to `b` has fewer edges.
pub open spec fn is_shortest(g: Map<usize, Set<usize>>, a: usize, b: usize, p: Seq<usize>) -> bool {
    &&& walk_between(g, a, b, p)
    &&& forall|q: Seq<usize>| #[trigger] walk_between(g, a, b, q) ==> p.len() <= q.len()
}

/// The least number of edges on a walk from `a` to `b` is `d`.
pub open spec fn is_distance(g: Map<usize, Set<usize>>, a: usize, b: usize, d: nat) -> bool {
    exists|p: Seq<usize>| #[trigger] is_shortest(g, a, b, p) && p.len() == d + 1
}

/// `b` can be reached from `a` over at most `d` edges.
pub open spec fn within(g: Map<usize, Set<usize>>, a: usize, b: usize, d: nat) -> bool {
    exists|p: Seq<usize>| #[trigger] walk_between(g, a, b, p) && p.len() <= d + 1
}

/// `b` is a node furthest from `a`, at distance `d`: the distance from `a` to
/// `b` is `d`, and everything reachable from `a` lies within `d` edges.
pub open spec fn is_furthest(g: Map<usize, Set<usize>>, a: usize, b: usize, d: nat) -> bool {
    &&& is_distance(g, a, b, d)
    &&& forall|c: usize| #[trigger] reachable(g, a, c) ==> within(g, a, c, d)
}

/// `a` has no outgoing edge in `g`.
pub open spec fn is_sink(g: Map<usize, Set<usize>>, a: usize) -> bool {
    forall|b: usize| !#[trigger] has_edge(g, a, b)
}

/// `a` has an outgoing edge in `g`.
pub open spec fn has_out_edge(g: Map<usize, Set<usize>>, a: usize) -> bool {
    exists|b: usize| has_edge(g, a, b)
}

/// `g` has an edge.
pub open spec fn has_edges(g: Map<usize, Set<usize>>) -> bool {
    exists|a: usize| has_out_edge(g, a)
}

/// Extending a walk by an edge out of its last node gives a walk.
pub proof fn lemma_walk_push(g: Map<usize, Set<usize>>, p: Seq<usize>, b: usize)
    requires
        is_walk(g, p),
        has_edge(g, p.last(), b),
    ensures
        is_walk(g, p.push(b)),
        p.push(b)[0] == p[0],
        p.push(b).last() == b,
{
    let r = p.push(b);
    assert forall|i: int| 0 <= i < r.len() - 1 implies #[trigger] edge_at(g, r, i) by {
        if i < p.len() - 1 {
            assert(edge_at(g, p, i));
        }
    }
}

/// A walk of two or more nodes is a walk to its last-but-one node, followed
/// by an edge.
pub proof fn lemma_walk_drop_last(g: Map<usize, Set<usize>>, p: Seq<usize>)
    requires
        is_walk(g, p),
        p.len() >= 2,
    ensures
        is_walk(g, p.drop_last()),
        p.drop_last()[0] == p[0],
        p.drop_last().last() == p[p.len() - 2],
        has_edge(g, p[p.len() - 2], p.last()),
{
    let r = p.drop_last();
    assert forall|i: int| 0 <= i < r.len() - 1 implies #[trigger] edge_at(g, r, i) by {
        assert(edge_at(g, p, i));
    }
    assert(edge_at(g, p, p.len() - 2));
}

/// The one-node walk.
pub proof fn lemma_walk_single(g: Map<usize, Set<usize>>, a: usize)
    ensures
        walk_between(g, a, a, seq![a]),
        reachable(g, a, a),
{
    assert(walk_between(g, a, a, seq![a]));
}

/// A shortest walk from a node to itself is that node alone.
pub proof fn lemma_shortest_to_self(g: Map<usize, Set<usize>>, a: usize, p: Seq<usize>)
    requires
        is_shortest(g, a, a, p),
    ensures
        p == seq![a],
{
    lemma_walk_single(g, a);
    assert(p.len() == 1);
    assert(p =~= seq![a]);
}

/// A shortest walk of more than one node follows edges of the graph at
/// every step, and the number of its edges is the distance between its ends.
pub proof fn lemma_shortest_is_distance(g: Map<usize, Set<usize>>, a: usize, b: usize, p: Seq<usize>)
    requires
        is_shortest(g, a, b, p),
    ensures
        forall|i: int| 0 <= i < p.len() - 1 ==> has_edge(g, #[trigger] p[i], p[i + 1]),
        is_distance(g, a, b, (p.len() - 1) as nat),
        forall|d: nat| is_distance(g, a, b, d) ==> d == p.len() - 1,
{
    assert forall|i: int| 0 <= i < p.len() - 1 implies has_edge(g, #[trigger] p[i], p[i + 1]) by {
        assert(edge_at(g, p, i));
    }
    assert forall|d: nat| is_distance(g, a, b, d) implies d == p.len() - 1 by {
        let q = choose|q: Seq<usize>| #[trigger] is_shortest(g, a, b, q) && q.len() == d + 1;
        assert(walk_between(g, a, b, q));
        assert(walk_between(g, a, b, p));
    }
}

/// From a node without outgoing edges only the node itself can be reached.
pub proof fn lemma_sink_reaches_itself(g: Map<usize, Set<usize>>, a: usize, p: Seq<usize>)
    requires
        is_sink(g, a),
        walk_from(g, a, p),
    ensures
        p == seq![a],
{
    if p.len() >= 2 {
        assert(edge_at(g, p, 0));
        assert(has_edge(g, a, p[1]));
    }
    assert(p =~= seq![a]);
}

} // verus!
