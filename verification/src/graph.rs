//! The link graph and the queries on it.

use std::collections::{HashMap, HashSet, VecDeque};
use vstd::prelude::*;
use vstd::std_specs::hash::spec_hash_set_len;
use rand::Rng;
use crate::sweep::{Sweep, STALE_LIMIT, sweep_after, is_sweep_series, is_estimate, lemma_sweep_push};
use crate::paths::{lemma_walk_single, lemma_shortest_to_self, has_edge, has_edges, has_out_edge, walk_between, reachable, within, is_shortest, is_furthest, is_sink, lemma_sink_reaches_itself};
use crate::bfs::{waiting, expanding, closed_at, tree_ok, settled, settled_but, labelled, queued_nodes, lemma_start, lemma_pop, lemma_visit, lemma_finish, lemma_exhausted, lemma_settled_pop, lemma_settled_visit, lemma_labelled_pop, lemma_labelled_visit, links_ok, lemma_links_visit, lemma_step_back};

verus! {

/// A directed graph: for each node that has an entry, the set of nodes that
/// its edges lead to.
pub struct Graph {
    pub graph: HashMap<usize, HashSet<usize>>,
}

/// The adjacency map that a table of edge sets stands for.
pub open spec fn adjacency(table: Map<usize, HashSet<usize>>) -> Map<usize, Set<usize>> {
    Map::new(|a: usize| table.contains_key(a), |a: usize| table[a]@)
}

impl View for Graph {
    type V = Map<usize, Set<usize>>;

    open spec fn view(&self) -> Map<usize, Set<usize>> {
        adjacency(self.graph@)
    }
}

/// The number of unseen nodes and queued nodes that a search has left to
/// handle: it falls with every step of the search.
spec fn work_left(seen: Set<usize>, queue_len: nat) -> int {
    2 * (usize::MAX - seen.len()) + queue_len
}

proof fn lemma_set_fits(s: &HashSet<usize>)
    ensures
        s@.len() <= usize::MAX,
{
    assert(spec_hash_set_len(s) == s@.len());
}

/// Reverses the order of the elements of `v`.
fn reverse(v: &mut Vec<usize>)
    ensures
        final(v)@ == old(v)@.reverse(),
{
    let n = v.len();
    let mut i: usize = 0;
    while i < n / 2
        invariant
            n == v@.len(),
            n == old(v)@.len(),
            i <= n / 2,
            forall|k: int| 0 <= k < i ==> v@[k] == old(v)@[n - 1 - k],
            forall|k: int| 0 <= k < i ==> v@[n - 1 - k] == old(v)@[k],
            forall|k: int| i <= k < n - i ==> v@[k] == old(v)@[k],
        decreases n / 2 - i,
    {
        let a = v[i];
        let b = v[n - 1 - i];
        v.set(i, b);
        v.set(n - 1 - i, a);
        i += 1;
    }
    assert(v@ =~= old(v)@.reverse());
}

/// `rand::Rng::gen_range` on the generator that `rand::thread_rng` gives: a
/// number from `0` up to, but not including, `bound`. Which one is left
/// open; the call panics where `bound` is 0.
#[verifier::external_body]
fn random_below(bound: usize) -> (r: usize)
    requires
        bound > 0,
    ensures
        r < bound,
{
    rand::thread_rng().gen_range(0, bound)
}

impl Graph {
    /// The edges out of `page`: the set of the nodes they lead to, or `None`
    /// where `page` has no entry in the graph.
    pub fn links(&self, page: usize) -> (r: Option<&HashSet<usize>>)
        ensures
            r is Some <==> self@.contains_key(page),
            r matches Some(out) ==> out@ == self@[page],
    {
        self.graph.get(&page)
    }

    /// A walk from `start` to `end` with the fewest edges, as the sequence of
    /// its nodes; where no walk leads from `start` to `end`, the one node `end`.
    pub fn find_shortest_path(&self, start: usize, end: usize) -> (path: Vec<usize>)
        ensures
            reachable(self@, start, end) ==> is_shortest(self@, start, end, path@),
            !reachable(self@, start, end) ==> path@ == seq![end],
            start == end ==> path@ == seq![start],
            path@.len() > 1 ==> is_shortest(self@, start, end, path@),
    {
        let mut visited: HashSet<usize> = HashSet::new();
        let mut came_from: HashMap<usize, usize> = HashMap::new();
        let mut todo: VecDeque<usize> = VecDeque::new();
        let ghost mut tree: Map<usize, Seq<usize>> = map![start => seq![start]];
        let ghost mut found = false;

        todo.push_back(start);
        visited.insert(start);
        proof {
            lemma_start(self@, start);
            assert(visited@ =~= set![start]);
            assert(todo@ =~= seq![start]);
            assert(came_from@.dom() =~= visited@.remove(start));
            lemma_set_fits(&visited);
        }

        loop
            invariant
                tree_ok(self@, start, visited@, tree),
                links_ok(came_from@, visited@, tree, start),
                !found ==> waiting(self@, start, visited@, todo@, tree),
                !found ==> end == start || !visited@.contains(end),
                found ==> todo@.len() == 0 && visited@.contains(end),
                visited@.len() <= usize::MAX,
            ensures
                todo@.len() == 0,
            decreases work_left(visited@, todo@.len()),
        {
            let ghost seen_before = visited@;
            let ghost todo_before = todo@;
            let curr = match todo.pop_front() {
                Some(node) => node,
                None => { break; },
            };
            proof {
                lemma_pop(self@, start, visited@, todo_before, tree);
                assert(todo@ =~= todo_before.drop_first());
            }
            match self.graph.get(&curr) {
                Some(neighbors) => {
                    for n in it: neighbors.iter()
                        invariant_except_break
                            !found,
                        invariant
                            tree_ok(self@, start, visited@, tree),
                            links_ok(came_from@, visited@, tree, start),
                            !found ==> expanding(self@, start, visited@, todo@, tree, curr),
                            !found ==> end == start || !visited@.contains(end),
                            found ==> todo@.len() == 0 && visited@.contains(end),
                            self.graph@.contains_key(curr),
                            self.graph@[curr] == *neighbors,
                            !found ==> forall|j: int| 0 <= j < it.index() ==> visited@.contains(*#[trigger] it.seq()[j]),
                            visited@.len() <= usize::MAX,
                            work_left(visited@, todo@.len()) < work_left(seen_before, todo_before.len()),
                        ensures
                            !found ==> closed_at(self@, visited@, curr),
                    {
                        if !visited.contains(n) {
                            proof {
                                assert(has_edge(self@, curr, *n));
                                lemma_visit(self@, start, visited@, todo@, tree, curr, *n);
                                lemma_links_visit(self@, came_from@, visited@, tree, start, curr, *n);
                            }
                            todo.push_back(*n);
                            visited.insert(*n);
                            came_from.insert(*n, curr);
                            proof {
                                tree = tree.insert(*n, tree[curr].push(*n));
                                lemma_set_fits(&visited);
                            }
                            if *n == end {
                                todo.clear();
                                proof {
                                    found = true;
                                }
                                break;
                            }
                        }
                    }
                },
                None => {},
            }
            proof {
                if !found {
                    lemma_finish(self@, start, visited@, todo@, tree, curr);
                }
            }
        }

        let mut path: Vec<usize> = Vec::new();
        path.push(end);
        let mut curr = end;
        proof {
            assert(todo@ =~= Seq::<usize>::empty());
            lemma_walk_single(self@, start);
            if visited@.contains(end) {
                assert(walk_between(self@, start, end, tree[end]));
                assert(path@.reverse() =~= seq![end]);
                assert(tree[end].drop_last() + path@.reverse() =~= tree[end]);
            } else {
                assert(!reachable(self@, start, end)) by {
                    if reachable(self@, start, end) {
                        let q = choose|q: Seq<usize>| walk_between(self@, start, end, q);
                        lemma_exhausted(self@, start, visited@, tree, q);
                    }
                }
                assert(path@ =~= seq![end]);
            }
        }
        loop
            invariant
                tree_ok(self@, start, visited@, tree),
                links_ok(came_from@, visited@, tree, start),
                visited@.contains(end) ==> visited@.contains(curr) && tree[curr].drop_last() + path@.reverse() == tree[end],
                !visited@.contains(end) ==> curr == end && path@ == seq![end],
            ensures
                visited@.contains(end) ==> path@.reverse() == tree[end],
                !visited@.contains(end) ==> path@ == seq![end],
            decreases tree[curr].len(),
        {
            proof {
                if visited@.contains(end) {
                    lemma_step_back(self@, came_from@, visited@, tree, start, end, curr, path@);
                }
            }
            match came_from.get(&curr) {
                Some(from) => {
                    path.push(*from);
                    curr = *from;
                },
                None => { break; },
            }
        }
        reverse(&mut path);
        proof {
            if visited@.contains(end) {
                assert(path@ =~= tree[end]);
                assert(is_shortest(self@, start, end, path@));
                if start == end {
                    lemma_shortest_to_self(self@, start, path@);
                }
            } else {
                assert(seq![end].reverse() =~= seq![end]);
            }
        }
        path
    }

    /// A walk from `start` to `end` with the fewest edges, or `None` where
    /// no walk leads from `start` to `end`.
    pub fn find_path(&self, start: usize, end: usize) -> (r: Option<Vec<usize>>)
        ensures
            r is Some <==> reachable(self@, start, end),
            r matches Some(path) ==> is_shortest(self@, start, end, path@),
    {
        let path = self.find_shortest_path(start, end);
        if path.len() == 1 && start != end {
            proof {
                if reachable(self@, start, end) {
                    assert(walk_between(self@, start, end, path@));
                }
            }
            None
        } else {
            proof {
                if !reachable(self@, start, end) {
                    lemma_walk_single(self@, start);
                }
            }
            Some(path)
        }
    }

    /// A node furthest from `start` and its distance from `start`.
    ///
    /// Where several nodes are furthest, which of them is returned depends on
    /// the order in which the edge sets are walked.
    pub fn find_furthest(&self, start: usize) -> (r: (usize, usize))
        ensures
            is_furthest(self@, start, r.0, r.1 as nat),
            is_sink(self@, start) ==> r == (start, 0usize),
    {
        let mut visited: HashSet<usize> = HashSet::new();
        let mut todo: VecDeque<(usize, usize)> = VecDeque::new();
        let mut max_node = start;
        let mut max_dist: usize = 0;
        let ghost mut tree: Map<usize, Seq<usize>> = map![start => seq![start]];

        visited.insert(start);
        todo.push_back((start, 0));
        proof {
            lemma_start(self@, start);
            assert(visited@ =~= set![start]);
            assert(queued_nodes(todo@) =~= seq![start]);
            assert(queued_nodes(todo@).contains(start)) by {
                assert(queued_nodes(todo@)[0] == start);
            }
            lemma_set_fits(&visited);
        }

        loop
            invariant
                waiting(self@, start, visited@, queued_nodes(todo@), tree),
                labelled(todo@, tree),
                visited@.contains(max_node),
                tree[max_node].len() == max_dist + 1,
                settled(visited@, queued_nodes(todo@), tree, max_dist + 1),
                visited@.len() <= usize::MAX,
            ensures
                todo@.len() == 0,
            decreases work_left(visited@, todo@.len()),
        {
            let ghost seen_before = visited@;
            let ghost todo_before = todo@;
            let (curr, dist) = match todo.pop_front() {
                Some(entry) => entry,
                None => { break; },
            };
            proof {
                lemma_pop(self@, start, visited@, queued_nodes(todo_before), tree);
                lemma_settled_pop(visited@, queued_nodes(todo_before), tree, max_dist + 1);
                lemma_labelled_pop(todo_before, tree);
                assert(todo@ =~= todo_before.drop_first());
            }
            if dist > max_dist {
                max_dist = dist;
                max_node = curr;
            }
            match self.graph.get(&curr) {
                Some(neighbors) => {
                    for n in it: neighbors.iter()
                        invariant
                            expanding(self@, start, visited@, queued_nodes(todo@), tree, curr),
                            labelled(todo@, tree),
                            dist + 1 == tree[curr].len(),
                            self.graph@.contains_key(curr),
                            self.graph@[curr] == *neighbors,
                            forall|j: int| 0 <= j < it.index() ==> visited@.contains(*#[trigger] it.seq()[j]),
                            visited@.contains(max_node),
                            tree[max_node].len() == max_dist + 1,
                            tree[curr].len() <= max_dist + 1,
                            settled_but(visited@, queued_nodes(todo@), tree, max_dist + 1, curr),
                            visited@.len() <= usize::MAX,
                            work_left(visited@, todo@.len()) < work_left(seen_before, todo_before.len()),
                    {
                        if !visited.contains(n) {
                            let ghost found = tree[curr].push(*n);
                            proof {
                                assert(has_edge(self@, curr, *n));
                                lemma_visit(self@, start, visited@, queued_nodes(todo@), tree, curr, *n);
                                lemma_settled_visit(visited@, queued_nodes(todo@), tree, max_dist + 1, curr, *n, found);
                                lemma_labelled_visit(visited@, todo@, tree, *n, (dist + 1) as usize, found);
                            }
                            todo.push_back((*n, dist + 1));
                            visited.insert(*n);
                            proof {
                                tree = tree.insert(*n, found);
                                lemma_set_fits(&visited);
                            }
                        }
                    }
                    proof {
                        assert forall|b: usize| #[trigger] has_edge(self@, curr, b) implies visited@.contains(b) by {
                            assert(neighbors@.contains(b));
                        }
                    }
                },
                None => {},
            }
            proof {
                lemma_finish(self@, start, visited@, queued_nodes(todo@), tree, curr);
            }
        }
        proof {
            assert(queued_nodes(todo@) =~= Seq::<usize>::empty());
            assert(is_shortest(self@, start, max_node, tree[max_node]));
            assert forall|c: usize| #[trigger] reachable(self@, start, c) implies within(
                self@,
                start,
                c,
                max_dist as nat,
            ) by {
                let q = choose|q: Seq<usize>| walk_between(self@, start, c, q);
                lemma_exhausted(self@, start, visited@, tree, q);
                assert(walk_between(self@, start, c, tree[c]));
            }
            if is_sink(self@, start) {
                lemma_sink_reaches_itself(self@, start, tree[max_node]);
            }
        }
        (max_node, max_dist)
    }

    /// An estimate of the diameter of the graph, as two nodes and the
    /// distance from the first to the second. It is found by a series of
    /// sweeps: the first goes from `start` to a node furthest from it, each
    /// later one starts where the one before ended, and the series ends when
    /// `STALE_LIMIT` sweeps in a row have found no longer distance than the
    /// longest before them.
    ///
    /// The estimate is never more than the diameter, and may be less.
    pub fn estimate_diameter_from(&self, start: usize) -> (r: (usize, usize, usize))
        ensures
            is_estimate(self@, start, r),
    {
        let mut state = Sweep::begin(start);
        let ghost mut trace: Seq<(usize, usize)> = Seq::empty();
        while state.no_changes_count < STALE_LIMIT
            invariant
                is_sweep_series(self@, start, trace),
                state == sweep_after(start, trace),
                state.no_changes_count <= STALE_LIMIT,
            decreases usize::MAX - state.max_dist, STALE_LIMIT - state.no_changes_count,
        {
            let (next, dist) = self.find_furthest(state.curr);
            proof {
                lemma_sweep_push(self@, start, trace, next, dist);
                trace = trace.push((next, dist));
            }
            state.record(next, dist);
        }
        (state.max_start, state.max_end, state.max_dist)
    }

    /// Whether the graph has an edge.
    pub fn has_edges(&self) -> (r: bool)
        ensures
            r == has_edges(self@),
    {
        for key in it: self.graph.keys()
            invariant
                forall|j: int| 0 <= j < it.index() ==> !has_out_edge(self@, *#[trigger] it.seq()[j]),
        {
            proof {
                assert(it.seq().unref()[it.index()] == *key);
                assert(it.seq().unref().to_set().contains(*key));
            }
            match self.graph.get(key) {
                Some(out) => {
                    if !out.is_empty() {
                        proof {
                            let b = choose|b: usize| out@.contains(b);
                            assert(has_edge(self@, *key, b));
                            assert(has_out_edge(self@, *key));
                        }
                        return true;
                    }
                },
                None => {},
            }
        }
        proof {
            assert forall|a: usize| !has_out_edge(self@, a) by {
                if has_out_edge(self@, a) {
                    assert(self.graph@.dom().contains(a));
                }
            }
        }
        false
    }

    /// The nodes that have an outgoing edge, each once.
    fn sources(&self) -> (r: Vec<usize>)
        ensures
            forall|i: int| 0 <= i < r@.len() ==> has_out_edge(self@, #[trigger] r@[i]),
            forall|a: usize| #[trigger] has_out_edge(self@, a) ==> r@.contains(a),
    {
        let mut found: Vec<usize> = Vec::new();
        for key in it: self.graph.keys()
            invariant
                forall|i: int| 0 <= i < found@.len() ==> has_out_edge(self@, #[trigger] found@[i]),
                forall|j: int|
                    0 <= j < it.index() && has_out_edge(self@, *#[trigger] it.seq()[j]) ==> found@.contains(
                        *it.seq()[j],
                    ),
        {
            let ghost before = found@;
            proof {
                assert(it.seq().unref()[it.index()] == *key);
                assert(it.seq().unref().to_set().contains(*key));
            }
            match self.graph.get(key) {
                Some(out) => {
                    if !out.is_empty() {
                        proof {
                            let b = choose|b: usize| out@.contains(b);
                            assert(has_edge(self@, *key, b));
                        }
                        found.push(*key);
                        proof {
                            assert(found@[before.len() as int] == *key);
                            assert forall|j: int|
                                0 <= j < it.index() && has_out_edge(self@, *#[trigger] it.seq()[j]) implies found@.contains(
                                *it.seq()[j],
                            ) by {
                                let i = choose|i: int| 0 <= i < before.len() && before[i] == *it.seq()[j];
                                assert(found@[i] == before[i]);
                            }
                        }
                    }
                },
                None => {},
            }
        }
        proof {
            assert forall|a: usize| #[trigger] has_out_edge(self@, a) implies found@.contains(a) by {
                assert(self.graph@.dom().contains(a));
            }
        }
        found
    }

    /// An estimate of the diameter of the graph, by a series of sweeps from
    /// a node drawn at random among the nodes that have an outgoing edge.
    pub fn estimate_diameter(&self) -> (r: (usize, usize, usize))
        requires
            has_edges(self@),
        ensures
            exists|start: usize| has_out_edge(self@, start) && #[trigger] is_estimate(self@, start, r),
    {
        let start = self.random_node();
        self.estimate_diameter_from(start)
    }

    /// A node drawn at random among the nodes that have an outgoing edge.
    fn random_node(&self) -> (node: usize)
        requires
            has_edges(self@),
        ensures
            has_out_edge(self@, node),
    {
        let nodes = self.sources();
        proof {
            let a = choose|a: usize| has_out_edge(self@, a);
            assert(nodes@.contains(a));
        }
        let pick = random_below(nodes.len());
        nodes[pick]
    }
}

} // verus!
