//! The bookkeeping of the diameter estimate: a series of sweeps, each going
//! from the current node to a node furthest from it, that ends when a number
//! of sweeps in a row have found no longer distance.

use vstd::prelude::*;
use crate::paths::{is_furthest, is_distance, is_shortest, walk_between, within, reachable, lemma_walk_single};

verus! {

/// The number of sweeps in a row without a longer distance after which the
/// estimate stands.
pub const STALE_LIMIT: usize = 5;

/// Where a series of sweeps stands: the node that the next sweep starts from,
/// the longest distance found so far with the two nodes that lie so far
/// apart, and the number of sweeps since that distance was found.
#[derive(Clone, Copy, Debug)]
pub struct Sweep {
    pub curr: usize,
    pub max_start: usize,
    pub max_end: usize,
    pub max_dist: usize,
    pub no_changes_count: usize,
}

impl Sweep {
    /// The state before the first sweep from `node`.
    pub open spec fn initial(node: usize) -> Sweep {
        Sweep { curr: node, max_start: node, max_end: node, max_dist: 0, no_changes_count: 0 }
    }

    /// The state after a sweep from `self.curr` that ended in `next`, at
    /// distance `dist`.
    pub open spec fn after(self, next: usize, dist: usize) -> Sweep {
        if dist > self.max_dist {
            Sweep { curr: next, max_start: self.curr, max_end: next, max_dist: dist, no_changes_count: 0 }
        } else {
            Sweep {
                curr: next,
                max_start: self.max_start,
                max_end: self.max_end,
                max_dist: self.max_dist,
                no_changes_count: (self.no_changes_count + 1) as usize,
            }
        }
    }

    /// The estimate that the state holds.
    pub open spec fn best(self) -> (usize, usize, usize) {
        (self.max_start, self.max_end, self.max_dist)
    }

    pub(crate) fn begin(node: usize) -> (s: Sweep)
        ensures
            s == Sweep::initial(node),
    {
        Sweep { curr: node, max_start: node, max_end: node, max_dist: 0, no_changes_count: 0 }
    }

    pub(crate) fn record(&mut self, next: usize, dist: usize)
        requires
            old(self).no_changes_count < STALE_LIMIT,
        ensures
            *final(self) == old(self).after(next, dist),
    {
        if dist > self.max_dist {
            self.max_start = self.curr;
            self.max_end = next;
            self.max_dist = dist;
            self.no_changes_count = 0;
        } else {
            self.no_changes_count += 1;
        }
        self.curr = next;
    }
}

/// The state after the sweeps of `trace`, each given by the node it ended in
/// and the distance it found, the first of them starting from `start`.
pub open spec fn sweep_after(start: usize, trace: Seq<(usize, usize)>) -> Sweep
    decreases trace.len(),
{
    if trace.len() == 0 {
        Sweep::initial(start)
    } else {
        sweep_after(start, trace.drop_last()).after(trace.last().0, trace.last().1)
    }
}

/// Sweep `i` of `trace` was due, and went to a node furthest from the node
/// that it started from.
pub open spec fn sweep_at(g: Map<usize, Set<usize>>, start: usize, trace: Seq<(usize, usize)>, i: int) -> bool {
    let before = sweep_after(start, trace.take(i));
    &&& before.no_changes_count < STALE_LIMIT
    &&& is_furthest(g, before.curr, trace[i].0, trace[i].1 as nat)
}

/// `trace` is a series of sweeps in `g` that starts from `start`.
pub open spec fn is_sweep_series(g: Map<usize, Set<usize>>, start: usize, trace: Seq<(usize, usize)>) -> bool {
    forall|i: int| 0 <= i < trace.len() ==> #[trigger] sweep_at(g, start, trace, i)
}

/// `r` is the estimate that some complete series of sweeps from `start` ends
/// with.
pub open spec fn is_estimate(g: Map<usize, Set<usize>>, start: usize, r: (usize, usize, usize)) -> bool {
    exists|trace: Seq<(usize, usize)>|
        {
            &&& #[trigger] is_sweep_series(g, start, trace)
            &&& sweep_after(start, trace).no_changes_count == STALE_LIMIT
            &&& sweep_after(start, trace).best() == r
        }
}

/// One more sweep at the end of a series.
pub proof fn lemma_sweep_push(
    g: Map<usize, Set<usize>>,
    start: usize,
    trace: Seq<(usize, usize)>,
    next: usize,
    dist: usize,
)
    requires
        is_sweep_series(g, start, trace),
        sweep_after(start, trace).no_changes_count < STALE_LIMIT,
        is_furthest(g, sweep_after(start, trace).curr, next, dist as nat),
    ensures
        is_sweep_series(g, start, trace.push((next, dist))),
        sweep_after(start, trace.push((next, dist))) == sweep_after(start, trace).after(next, dist),
{
    let longer = trace.push((next, dist));
    assert(longer.drop_last() =~= trace);
    assert forall|i: int| 0 <= i < longer.len() implies #[trigger] sweep_at(g, start, longer, i) by {
        if i < trace.len() {
            assert(sweep_at(g, start, trace, i));
            assert(longer.take(i) =~= trace.take(i));
        } else {
            assert(longer.take(i) =~= trace);
        }
    }
}

/// A series of sweeps without its last sweep is a series of sweeps.
pub proof fn lemma_sweep_drop_last(g: Map<usize, Set<usize>>, start: usize, trace: Seq<(usize, usize)>)
    requires
        is_sweep_series(g, start, trace),
        trace.len() > 0,
    ensures
        is_sweep_series(g, start, trace.drop_last()),
        sweep_at(g, start, trace, trace.len() - 1),
        trace.take(trace.len() - 1) == trace.drop_last(),
{
    let shorter = trace.drop_last();
    assert(trace.take(trace.len() - 1) =~= shorter);
    assert forall|i: int| 0 <= i < shorter.len() implies #[trigger] sweep_at(g, start, shorter, i) by {
        assert(sweep_at(g, start, trace, i));
        assert(shorter.take(i) =~= trace.take(i));
    }
}

/// The distance to a furthest node is the same whichever furthest node is
/// taken.
pub proof fn lemma_furthest_distance_unique(
    g: Map<usize, Set<usize>>,
    a: usize,
    b1: usize,
    d1: nat,
    b2: usize,
    d2: nat,
)
    requires
        is_furthest(g, a, b1, d1),
        is_furthest(g, a, b2, d2),
    ensures
        d1 == d2,
{
    let w1 = choose|p: Seq<usize>| #[trigger] is_shortest(g, a, b1, p) && p.len() == d1 + 1;
    let w2 = choose|p: Seq<usize>| #[trigger] is_shortest(g, a, b2, p) && p.len() == d2 + 1;
    assert(walk_between(g, a, b1, w1));
    assert(walk_between(g, a, b2, w2));
    assert(reachable(g, a, b1));
    assert(reachable(g, a, b2));
    assert(within(g, a, b1, d2));
    assert(within(g, a, b2, d1));
    let q1 = choose|q: Seq<usize>| #[trigger] walk_between(g, a, b1, q) && q.len() <= d2 + 1;
    let q2 = choose|q: Seq<usize>| #[trigger] walk_between(g, a, b2, q) && q.len() <= d1 + 1;
    assert(w1.len() <= q1.len());
    assert(w2.len() <= q2.len());
}

/// Whatever the sweeps of a series found, the estimate it holds is the
/// distance between the two nodes it names, and no sweep of the series found
/// a longer distance.
pub proof fn lemma_sweep_series_best(g: Map<usize, Set<usize>>, start: usize, trace: Seq<(usize, usize)>)
    requires
        is_sweep_series(g, start, trace),
    ensures
        is_distance(
            g,
            sweep_after(start, trace).max_start,
            sweep_after(start, trace).max_end,
            sweep_after(start, trace).max_dist as nat,
        ),
        forall|i: int| 0 <= i < trace.len() ==> (#[trigger] trace[i]).1 <= sweep_after(start, trace).max_dist,
    decreases trace.len(),
{
    if trace.len() == 0 {
        lemma_walk_single(g, start);
        assert(is_shortest(g, start, start, seq![start]));
    } else {
        lemma_sweep_drop_last(g, start, trace);
        lemma_sweep_series_best(g, start, trace.drop_last());
        assert(sweep_at(g, start, trace, trace.len() - 1));
        assert forall|i: int| 0 <= i < trace.len() implies (#[trigger] trace[i]).1 <= sweep_after(
            start,
            trace,
        ).max_dist by {
            if i < trace.len() - 1 {
                assert(trace.drop_last()[i] == trace[i]);
            }
        }
    }
}

/// An estimate is the distance between the two nodes it names, and it is at
/// least the distance from `start` to a node furthest from `start`.
pub proof fn lemma_estimate_bounds(
    g: Map<usize, Set<usize>>,
    start: usize,
    r: (usize, usize, usize),
    b: usize,
    d: nat,
)
    requires
        is_estimate(g, start, r),
        is_furthest(g, start, b, d),
    ensures
        is_distance(g, r.0, r.1, r.2 as nat),
        d <= r.2,
{
    let trace = choose|trace: Seq<(usize, usize)>|
        {
            &&& #[trigger] is_sweep_series(g, start, trace)
            &&& sweep_after(start, trace).no_changes_count == STALE_LIMIT
            &&& sweep_after(start, trace).best() == r
        };
    lemma_sweep_series_best(g, start, trace);
    assert(trace.len() > 0);
    assert(sweep_at(g, start, trace, 0));
    assert(trace.take(0) =~= Seq::<(usize, usize)>::empty());
    lemma_furthest_distance_unique(g, start, b, d, trace[0].0, trace[0].1 as nat);
}

} // verus!
