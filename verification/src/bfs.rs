//! The invariants of a breadth-first search and the lemmas that carry them
//! from one step of the search to the next.
//!
//! The search is described by three mathematical values: the set of nodes
//! seen so far, the queue of seen nodes whose edges are still to be followed,
//! and for every seen node the walk by which it was found.

use vstd::prelude::*;
use crate::paths::{has_edge, walk_from, walk_between, lemma_walk_push, lemma_walk_drop_last};

verus! {

/// Every walk from `s` of at most `bound` nodes ends in a seen node.
pub open spec fn covers(g: Map<usize, Set<usize>>, s: usize, seen: Set<usize>, bound: int) -> bool {
    forall|q: Seq<usize>| #[trigger] walk_from(g, s, q) && q.len() <= bound ==> seen.contains(q.last())
}

/// Every edge out of `v` leads to a seen node.
pub open spec fn closed_at(g: Map<usize, Set<usize>>, seen: Set<usize>, v: usize) -> bool {
    forall|b: usize| #[trigger] has_edge(g, v, b) ==> seen.contains(b)
}

/// The node before `v` on the walk by which `v` was found.
pub open spec fn parent(tree: Map<usize, Seq<usize>>, v: usize) -> usize {
    tree[v][tree[v].len() - 2]
}

/// The walk to `v` is the walk to its parent, a seen node, followed by `v`.
pub open spec fn hangs_on_parent(seen: Set<usize>, tree: Map<usize, Seq<usize>>, v: usize) -> bool {
    &&& tree[v].len() >= 2
    &&& seen.contains(parent(tree, v))
    &&& tree[v] == tree[parent(tree, v)].push(v)
}

/// `tree` gives each seen node a shortest walk from `s`, built from the
/// shortest walk of another seen node by one more edge.
pub open spec fn tree_ok(
    g: Map<usize, Set<usize>>,
    s: usize,
    seen: Set<usize>,
    tree: Map<usize, Seq<usize>>,
) -> bool {
    &&& seen.finite()
    &&& seen.contains(s)
    &&& tree.dom() =~= seen
    &&& tree[s] == seq![s]
    &&& forall|v: usize| #[trigger] seen.contains(v) ==> walk_between(g, s, v, tree[v])
    &&& forall|v: usize| #[trigger] seen.contains(v) ==> tree[v].len() <= seen.len()
    &&& forall|q: Seq<usize>| #[trigger] walk_from(g, s, q) && seen.contains(q.last())
            ==> tree[q.last()].len() <= q.len()
    &&& forall|v: usize| #[trigger] seen.contains(v) && v != s ==> hangs_on_parent(seen, tree, v)
}

/// The queued nodes are seen, were found by walks of `lo` or `lo + 1` nodes,
/// and stand in the order of those lengths.
pub open spec fn queue_ok(seen: Set<usize>, tree: Map<usize, Seq<usize>>, queue: Seq<usize>, lo: int) -> bool {
    &&& forall|i: int| 0 <= i < queue.len() ==> seen.contains(#[trigger] queue[i])
    &&& forall|i: int| 0 <= i < queue.len() ==> lo <= tree[#[trigger] queue[i]].len() <= lo + 1
    &&& forall|i: int, j: int| 0 <= i <= j < queue.len()
            ==> tree[#[trigger] queue[i]].len() <= tree[#[trigger] queue[j]].len()
}

/// The state between two expansions: every seen node outside the queue has
/// all its edges followed, and the walks no longer than that of the head of
/// the queue all end in seen nodes.
pub open spec fn waiting(
    g: Map<usize, Set<usize>>,
    s: usize,
    seen: Set<usize>,
    queue: Seq<usize>,
    tree: Map<usize, Seq<usize>>,
) -> bool {
    &&& tree_ok(g, s, seen, tree)
    &&& forall|v: usize| #[trigger] seen.contains(v) && !queue.contains(v) ==> closed_at(g, seen, v)
    &&& queue.len() > 0 ==> {
        &&& queue_ok(seen, tree, queue, tree[queue[0]].len() as int)
        &&& covers(g, s, seen, tree[queue[0]].len() as int)
    }
}

/// The state while the edges of `c` are followed: as `waiting`, with `c`
/// taken from the queue and its edges not yet all followed.
pub open spec fn expanding(
    g: Map<usize, Set<usize>>,
    s: usize,
    seen: Set<usize>,
    queue: Seq<usize>,
    tree: Map<usize, Seq<usize>>,
    c: usize,
) -> bool {
    &&& tree_ok(g, s, seen, tree)
    &&& seen.contains(c)
    &&& forall|v: usize| #[trigger] seen.contains(v) && v != c && !queue.contains(v) ==> closed_at(g, seen, v)
    &&& queue_ok(seen, tree, queue, tree[c].len() as int)
    &&& covers(g, s, seen, tree[c].len() as int)
}

/// The search starts with its source seen and queued.
pub proof fn lemma_start(g: Map<usize, Set<usize>>, s: usize)
    ensures
        waiting(g, s, set![s], seq![s], map![s => seq![s]]),
{
    let seen = set![s];
    let queue = seq![s];
    let tree = map![s => seq![s]];
    assert(walk_between(g, s, s, seq![s]));
    assert(seen.len() == 1);
    assert(tree.dom() =~= seen);
    assert(queue.contains(s)) by {
        assert(queue[0] == s);
    }
    assert(tree_ok(g, s, seen, tree));
}

/// Taking the head of the queue begins its expansion.
pub proof fn lemma_pop(
    g: Map<usize, Set<usize>>,
    s: usize,
    seen: Set<usize>,
    queue: Seq<usize>,
    tree: Map<usize, Seq<usize>>,
)
    requires
        waiting(g, s, seen, queue, tree),
        queue.len() > 0,
    ensures
        expanding(g, s, seen, queue.drop_first(), tree, queue[0]),
{
    let rest = queue.drop_first();
    let c = queue[0];
    assert forall|v: usize| #[trigger] seen.contains(v) && v != c && !rest.contains(v) implies closed_at(
        g,
        seen,
        v,
    ) by {
        if queue.contains(v) {
            let i = choose|i: int| 0 <= i < queue.len() && queue[i] == v;
            assert(rest[i - 1] == v);
        }
    }
    assert forall|i: int| 0 <= i < rest.len() implies seen.contains(#[trigger] rest[i]) by {
        assert(rest[i] == queue[i + 1]);
    }
    assert forall|i: int| 0 <= i < rest.len() implies tree[c].len() <= tree[#[trigger] rest[i]].len()
        <= tree[c].len() + 1 by {
        assert(rest[i] == queue[i + 1]);
    }
    assert forall|i: int, j: int| 0 <= i <= j < rest.len() implies tree[#[trigger] rest[i]].len()
        <= tree[#[trigger] rest[j]].len() by {
        assert(rest[i] == queue[i + 1]);
        assert(rest[j] == queue[j + 1]);
    }
}

/// Following an edge of `c` to a node not seen before: the node is seen,
/// queued, and found by the walk to `c` and that edge.
pub proof fn lemma_visit(
    g: Map<usize, Set<usize>>,
    s: usize,
    seen: Set<usize>,
    queue: Seq<usize>,
    tree: Map<usize, Seq<usize>>,
    c: usize,
    n: usize,
)
    requires
        expanding(g, s, seen, queue, tree, c),
        has_edge(g, c, n),
        !seen.contains(n),
    ensures
        expanding(g, s, seen.insert(n), queue.push(n), tree.insert(n, tree[c].push(n)), c),
        seen.insert(n).len() == seen.len() + 1,
{
    let seen2 = seen.insert(n);
    let queue2 = queue.push(n);
    let found = tree[c].push(n);
    let tree2 = tree.insert(n, found);
    lemma_walk_push(g, tree[c], n);
    assert(walk_between(g, s, c, tree[c]));
    assert(walk_between(g, s, n, found));
    assert forall|v: usize| #[trigger] seen2.contains(v) implies walk_between(g, s, v, tree2[v]) by {
        if v != n {
            assert(seen.contains(v));
        }
    }
    assert forall|q: Seq<usize>| #[trigger] walk_from(g, s, q) && seen2.contains(q.last()) implies tree2[q.last()].len()
        <= q.len() by {
        if q.last() == n {
            if q.len() <= tree[c].len() {
                assert(seen.contains(q.last()));
            }
        }
    }
    assert forall|v: usize| #[trigger] seen2.contains(v) && v != s implies hangs_on_parent(seen2, tree2, v) by {
        if v == n {
            assert(found[found.len() - 2] == c);
            assert(parent(tree2, n) == c);
            assert(tree2[c] == tree[c]);
        } else {
            assert(seen.contains(v));
            assert(hangs_on_parent(seen, tree, v));
            assert(parent(tree2, v) == parent(tree, v));
        }
    }
    assert(tree2.dom() =~= seen2);
    assert(tree_ok(g, s, seen2, tree2));
    assert forall|v: usize| #[trigger] seen2.contains(v) && v != c && !queue2.contains(v) implies closed_at(
        g,
        seen2,
        v,
    ) by {
        assert(queue2[queue.len() as int] == n);
        assert(v != n);
        if queue.contains(v) {
            let i = choose|i: int| 0 <= i < queue.len() && queue[i] == v;
            assert(queue2[i] == v);
        }
        assert(closed_at(g, seen, v));
    }
    assert forall|i: int| 0 <= i < queue2.len() implies seen2.contains(#[trigger] queue2[i]) by {
        if i < queue.len() {
            assert(queue2[i] == queue[i]);
        }
    }
    assert forall|i: int| 0 <= i < queue2.len() implies tree2[c].len() <= tree2[#[trigger] queue2[i]].len()
        <= tree2[c].len() + 1 by {
        if i < queue.len() {
            assert(queue2[i] == queue[i]);
        }
    }
    assert forall|i: int, j: int| 0 <= i <= j < queue2.len() implies tree2[#[trigger] queue2[i]].len()
        <= tree2[#[trigger] queue2[j]].len() by {
        if i < queue.len() {
            assert(queue2[i] == queue[i]);
        }
        if j < queue.len() {
            assert(queue2[j] == queue[j]);
        }
    }
    assert(queue_ok(seen2, tree2, queue2, tree2[c].len() as int));
    assert(covers(g, s, seen2, tree2[c].len() as int));
}

/// When every edge of `c` has been followed, its expansion is over.
pub proof fn lemma_finish(
    g: Map<usize, Set<usize>>,
    s: usize,
    seen: Set<usize>,
    queue: Seq<usize>,
    tree: Map<usize, Seq<usize>>,
    c: usize,
)
    requires
        expanding(g, s, seen, queue, tree, c),
        closed_at(g, seen, c),
    ensures
        waiting(g, s, seen, queue, tree),
{
    if queue.len() > 0 {
        let h = queue[0];
        let lo = tree[h].len() as int;
        assert(seen.contains(h));
        assert forall|i: int| 0 <= i < queue.len() implies lo <= tree[#[trigger] queue[i]].len() <= lo
            + 1 by {
            assert(tree[queue[0]].len() <= tree[queue[i]].len());
        }
        assert forall|q: Seq<usize>| #[trigger] walk_from(g, s, q) && q.len() <= lo implies seen.contains(
            q.last(),
        ) by {
            if q.len() > tree[c].len() {
                lemma_walk_drop_last(g, q);
                let r = q.drop_last();
                let u = r.last();
                assert(walk_from(g, s, r));
                assert(seen.contains(u));
                assert(tree[u].len() <= r.len());
                if queue.contains(u) {
                    let i = choose|i: int| 0 <= i < queue.len() && queue[i] == u;
                    assert(tree[queue[0]].len() <= tree[queue[i]].len());
                }
                assert(closed_at(g, seen, u));
                assert(has_edge(g, u, q.last()));
            }
        }
    }
}

/// Every seen node outside the queue was found by a walk of at most `bound`
/// nodes.
pub open spec fn settled(seen: Set<usize>, queue: Seq<usize>, tree: Map<usize, Seq<usize>>, bound: int) -> bool {
    forall|v: usize| #[trigger] seen.contains(v) && !queue.contains(v) ==> tree[v].len() <= bound
}

/// As `settled`, but for the node `c`.
pub open spec fn settled_but(
    seen: Set<usize>,
    queue: Seq<usize>,
    tree: Map<usize, Seq<usize>>,
    bound: int,
    c: usize,
) -> bool {
    forall|v: usize| #[trigger] seen.contains(v) && v != c && !queue.contains(v) ==> tree[v].len() <= bound
}

/// Each queue entry pairs a node with the number of edges on the walk by
/// which the node was found.
pub open spec fn labelled(todo: Seq<(usize, usize)>, tree: Map<usize, Seq<usize>>) -> bool {
    forall|i: int| 0 <= i < todo.len() ==> (#[trigger] todo[i]).1 + 1 == tree[todo[i].0].len()
}

/// The nodes of a queue of nodes paired with their distance from the source.
pub open spec fn queued_nodes(todo: Seq<(usize, usize)>) -> Seq<usize> {
    todo.map_values(|e: (usize, usize)| e.0)
}

/// Taking the head of the queue leaves the other nodes settled.
pub proof fn lemma_settled_pop(seen: Set<usize>, queue: Seq<usize>, tree: Map<usize, Seq<usize>>, bound: int)
    requires
        settled(seen, queue, tree, bound),
        queue.len() > 0,
    ensures
        settled_but(seen, queue.drop_first(), tree, bound, queue[0]),
{
    let rest = queue.drop_first();
    assert forall|v: usize| #[trigger] seen.contains(v) && v != queue[0] && !rest.contains(v) implies tree[v].len()
        <= bound by {
        if queue.contains(v) {
            let i = choose|i: int| 0 <= i < queue.len() && queue[i] == v;
            assert(rest[i - 1] == v);
        }
    }
}

/// A node that is seen and queued in one step leaves the others settled.
pub proof fn lemma_settled_visit(
    seen: Set<usize>,
    queue: Seq<usize>,
    tree: Map<usize, Seq<usize>>,
    bound: int,
    c: usize,
    n: usize,
    found: Seq<usize>,
)
    requires
        settled_but(seen, queue, tree, bound, c),
        !seen.contains(n),
    ensures
        settled_but(seen.insert(n), queue.push(n), tree.insert(n, found), bound, c),
{
    let queue2 = queue.push(n);
    assert(queue2[queue.len() as int] == n);
    assert forall|v: usize| #[trigger] seen.insert(n).contains(v) && v != c && !queue2.contains(v) implies tree.insert(
        n,
        found,
    )[v].len() <= bound by {
        if queue.contains(v) {
            let i = choose|i: int| 0 <= i < queue.len() && queue[i] == v;
            assert(queue2[i] == v);
        }
    }
}

/// The labels of the queue stay right when its head is taken.
pub proof fn lemma_labelled_pop(todo: Seq<(usize, usize)>, tree: Map<usize, Seq<usize>>)
    requires
        labelled(todo, tree),
        todo.len() > 0,
    ensures
        labelled(todo.drop_first(), tree),
        todo[0].1 + 1 == tree[todo[0].0].len(),
        queued_nodes(todo.drop_first()) == queued_nodes(todo).drop_first(),
        queued_nodes(todo)[0] == todo[0].0,
{
    let rest = todo.drop_first();
    assert forall|i: int| 0 <= i < rest.len() implies (#[trigger] rest[i]).1 + 1 == tree[rest[i].0].len() by {
        assert(rest[i] == todo[i + 1]);
    }
    assert(queued_nodes(rest) =~= queued_nodes(todo).drop_first());
}

/// The labels of the queue stay right when a newly seen node joins it.
pub proof fn lemma_labelled_visit(
    seen: Set<usize>,
    todo: Seq<(usize, usize)>,
    tree: Map<usize, Seq<usize>>,
    n: usize,
    d: usize,
    found: Seq<usize>,
)
    requires
        labelled(todo, tree),
        forall|i: int| 0 <= i < todo.len() ==> seen.contains(#[trigger] queued_nodes(todo)[i]),
        !seen.contains(n),
        found.len() == d + 1,
    ensures
        labelled(todo.push((n, d)), tree.insert(n, found)),
        queued_nodes(todo.push((n, d))) == queued_nodes(todo).push(n),
{
    let todo2 = todo.push((n, d));
    let tree2 = tree.insert(n, found);
    assert forall|i: int| 0 <= i < todo2.len() implies (#[trigger] todo2[i]).1 + 1 == tree2[todo2[i].0].len() by {
        if i < todo.len() {
            assert(todo2[i] == todo[i]);
            assert(queued_nodes(todo)[i] == todo[i].0);
        }
    }
    assert(queued_nodes(todo2) =~= queued_nodes(todo).push(n));
}

/// The recorded predecessors are the parents of the search tree: every seen
/// node but the source has one.
pub open spec fn links_ok(
    came_from: Map<usize, usize>,
    seen: Set<usize>,
    tree: Map<usize, Seq<usize>>,
    s: usize,
) -> bool {
    &&& came_from.dom() =~= seen.remove(s)
    &&& forall|v: usize| #[trigger] came_from.contains_key(v) ==> came_from[v] == parent(tree, v)
}

/// Recording the predecessor of a newly seen node.
pub proof fn lemma_links_visit(
    g: Map<usize, Set<usize>>,
    came_from: Map<usize, usize>,
    seen: Set<usize>,
    tree: Map<usize, Seq<usize>>,
    s: usize,
    c: usize,
    n: usize,
)
    requires
        links_ok(came_from, seen, tree, s),
        tree_ok(g, s, seen, tree),
        seen.contains(c),
        !seen.contains(n),
    ensures
        links_ok(came_from.insert(n, c), seen.insert(n), tree.insert(n, tree[c].push(n)), s),
{
    let found = tree[c].push(n);
    let tree2 = tree.insert(n, found);
    let links2 = came_from.insert(n, c);
    assert(walk_between(g, s, c, tree[c]));
    assert(found[found.len() - 2] == c);
    assert(links2.dom() =~= seen.insert(n).remove(s));
    assert forall|v: usize| #[trigger] links2.contains_key(v) implies links2[v] == parent(tree2, v) by {
        if v != n {
            assert(came_from.contains_key(v));
        }
    }
}

/// Stepping from a seen node to its recorded predecessor, while the nodes
/// passed so far are collected in `back`, last node first.
pub proof fn lemma_step_back(
    g: Map<usize, Set<usize>>,
    came_from: Map<usize, usize>,
    seen: Set<usize>,
    tree: Map<usize, Seq<usize>>,
    s: usize,
    e: usize,
    v: usize,
    back: Seq<usize>,
)
    requires
        tree_ok(g, s, seen, tree),
        links_ok(came_from, seen, tree, s),
        seen.contains(v),
        tree[v].drop_last() + back.reverse() == tree[e],
    ensures
        came_from.contains_key(v) ==> {
            &&& seen.contains(came_from[v])
            &&& tree[came_from[v]].len() < tree[v].len()
            &&& tree[came_from[v]].drop_last() + back.push(came_from[v]).reverse() == tree[e]
        },
        !came_from.contains_key(v) ==> v == s && back.reverse() == tree[e],
{
    if came_from.contains_key(v) {
        let u = came_from[v];
        assert(seen.remove(s).contains(v));
        assert(hangs_on_parent(seen, tree, v));
        assert(walk_between(g, s, u, tree[u]));
        assert(tree[v].drop_last() =~= tree[u]);
        assert(back.push(u).reverse() =~= seq![u] + back.reverse());
        assert(tree[u] =~= tree[u].drop_last() + seq![u]);
        assert(tree[u].drop_last() + back.push(u).reverse() =~= tree[v].drop_last() + back.reverse());
    } else {
        assert(!seen.remove(s).contains(v));
        assert(tree[s].drop_last() =~= Seq::<usize>::empty());
        assert(tree[v].drop_last() + back.reverse() =~= back.reverse());
    }
}

/// Once the queue is empty, every node that a walk from `s` leads to is seen.
pub proof fn lemma_exhausted(
    g: Map<usize, Set<usize>>,
    s: usize,
    seen: Set<usize>,
    tree: Map<usize, Seq<usize>>,
    q: Seq<usize>,
)
    requires
        waiting(g, s, seen, Seq::<usize>::empty(), tree),
        walk_from(g, s, q),
    ensures
        seen.contains(q.last()),
    decreases q.len(),
{
    if q.len() >= 2 {
        lemma_walk_drop_last(g, q);
        let r = q.drop_last();
        assert(walk_from(g, s, r));
        lemma_exhausted(g, s, seen, tree, r);
        let u = r.last();
        assert(!Seq::<usize>::empty().contains(u));
        assert(closed_at(g, seen, u));
        assert(has_edge(g, u, q.last()));
    }
}

} // verus!
