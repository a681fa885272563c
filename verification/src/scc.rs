//! Strongly connected components of a finite graph.

use vstd::prelude::*;

use crate::ordered::{Key, OrderedMap, OrderedSet};
use crate::relation::{
    avoiding, closed_under, connected, reach, reach_in, reversed, lemma_reach_append,
    lemma_reach_join, lemma_reach_monotone, lemma_reach_reversed, lemma_reach_self,
    lemma_reach_stays,
};

verus! {

/// The edges of an adjacency map.
pub open spec fn graph_edges<K: Key>(graph: Map<K, OrderedSet<K>>) -> Set<(K, K)> {
    Set::new(|e: (K, K)| graph.contains_key(e.0) && graph[e.0]@.contains(e.1))
}

/// Whether `order` lists points as a depth-first search leaves them. The points left while
/// `order[i]` was being explored are those from `low[i]` to `i`.
pub open spec fn finish_intervals<K>(edges: Set<(K, K)>, order: Seq<K>, low: Seq<int>) -> bool {
    &&& low.len() == order.len()
    &&& forall|i: int| 0 <= i < order.len() ==> 0 <= #[trigger] low[i] <= i
    &&& forall|i: int, j: int|
        0 <= i < order.len() && #[trigger] low[i] <= j <= i ==> reach(edges, order[i], #[trigger] order[j])
    &&& forall|i: int, j: int|
        0 <= i < order.len() && #[trigger] low[i] <= j <= i ==> low[i] <= #[trigger] low[j]
    &&& forall|i: int, v: K|
        0 <= i < order.len() && #[trigger] edges.contains((order[i], v)) ==> exists|m: int|
            0 <= m < order.len() && #[trigger] order[m] == v && (m < i || low[m] <= i)
}

/// Whether `order` lists distinct points as a depth-first search leaves them.
pub open spec fn is_finish_order<K>(edges: Set<(K, K)>, order: Seq<K>) -> bool {
    &&& order.no_duplicates()
    &&& exists|low: Seq<int>| finish_intervals(edges, order, low)
}

/// A depth-first search in progress: the work stack, the points being explored with the places of
/// their exit marks and the number of points left before each was entered, and the points left.
struct Search<K> {
    stack: Seq<(K, bool)>,
    open: Seq<K>,
    open_low: Seq<int>,
    exit_at: Seq<int>,
    finished: Seq<K>,
    low: Seq<int>,
}

impl<K> Search<K> {
    spec fn visited(self, x: K) -> bool {
        self.finished.contains(x) || self.open.contains(x)
    }

    spec fn pending(self, k: int, v: K) -> bool {
        exists|at: int|
            self.exit_at[k] < at < self.stack.len() && #[trigger] self.stack[at] == (v, false)
    }

    /// Whether the exit mark of the open point `k` is the nearest one below place `at`.
    spec fn innermost(self, at: int, k: int) -> bool {
        &&& 0 <= k < self.open.len()
        &&& self.exit_at[k] < at < self.stack.len()
        &&& k + 1 == self.open.len() || at < self.exit_at[k + 1]
    }

    /// The stack and the exit marks on it.
    spec fn stack_inv(self, edges: Set<(K, K)>, start: K) -> bool {
        &&& self.open.len() == self.open_low.len() == self.exit_at.len()
        &&& forall|k: int|
            0 <= k < self.open.len() ==> 0 <= #[trigger] self.exit_at[k] < self.stack.len()
                && self.stack[self.exit_at[k]] == (self.open[k], true)
        &&& forall|k: int, l: int|
            0 <= k < l < self.open.len() ==> #[trigger] self.exit_at[k] < #[trigger] self.exit_at[l]
        &&& forall|at: int|
            0 <= at < self.stack.len() && (#[trigger] self.stack[at]).1 ==> exists|k: int|
                0 <= k < self.open.len() && #[trigger] self.exit_at[k] == at
        &&& forall|at: int, k: int| #[trigger]
            self.innermost(at, k) && !self.stack[at].1 ==> edges.contains(
                (self.open[k], self.stack[at].0),
            )
        &&& self.open.len() == 0 ==> self.stack.len() == 0 || self.stack == seq![(start, false)]
        &&& self.open.len() > 0 ==> self.exit_at[0] == 0
    }

    /// The points being explored.
    spec fn open_inv(self, edges: Set<(K, K)>) -> bool {
        &&& self.open.no_duplicates()
        &&& forall|k: int, l: int|
            0 <= k <= l < self.open.len() ==> reach(edges, #[trigger] self.open[k], #[trigger] self.open[l])
        &&& forall|k: int, v: K|
            0 <= k < self.open.len() && #[trigger] edges.contains((self.open[k], v)) ==> self.visited(v)
                || self.pending(k, v)
        &&& forall|k: int|
            0 <= k < self.open.len() ==> 0 <= #[trigger] self.open_low[k] <= self.finished.len()
        &&& forall|k: int, l: int|
            0 <= k <= l < self.open.len() ==> #[trigger] self.open_low[k] <= #[trigger] self.open_low[l]
        &&& forall|k: int, j: int|
            0 <= k < self.open.len() && #[trigger] self.open_low[k] <= j < self.finished.len()
                ==> reach(edges, self.open[k], #[trigger] self.finished[j])
        &&& forall|k: int, j: int|
            0 <= k < self.open.len() && #[trigger] self.open_low[k] <= j < self.finished.len()
                ==> self.open_low[k] <= #[trigger] self.low[j]
        &&& forall|x: K| !(#[trigger] self.finished.contains(x) && self.open.contains(x))
    }

    /// Where an edge out of the point left at place `i` ends.
    spec fn settled(self, i: int, v: K) -> bool {
        ||| exists|m: int|
            0 <= m < self.finished.len() && #[trigger] self.finished[m] == v && (m < i || self.low[m] <= i)
        ||| exists|k: int|
            0 <= k < self.open.len() && #[trigger] self.open[k] == v && self.open_low[k] <= i
    }

    /// The points left.
    spec fn finished_inv(self, edges: Set<(K, K)>) -> bool {
        &&& self.finished.no_duplicates()
        &&& self.low.len() == self.finished.len()
        &&& forall|i: int| 0 <= i < self.finished.len() ==> 0 <= #[trigger] self.low[i] <= i
        &&& forall|i: int, j: int|
            0 <= i < self.finished.len() && #[trigger] self.low[i] <= j <= i ==> reach(
                edges,
                self.finished[i],
                #[trigger] self.finished[j],
            )
        &&& forall|i: int, j: int|
            0 <= i < self.finished.len() && #[trigger] self.low[i] <= j <= i ==> self.low[i]
                <= #[trigger] self.low[j]
        &&& forall|i: int, v: K|
            0 <= i < self.finished.len() && #[trigger] edges.contains((self.finished[i], v))
                ==> self.settled(i, v)
    }

    /// Where the points come from.
    spec fn origin_inv(self, edges: Set<(K, K)>, start: K, before: Seq<K>) -> bool {
        &&& before.is_prefix_of(self.finished)
        &&& forall|at: int|
            0 <= at < self.stack.len() ==> reach(edges, start, (#[trigger] self.stack[at]).0)
        &&& forall|x: K| #[trigger] self.visited(x) ==> before.contains(x) || reach(edges, start, x)
        &&& self.visited(start) || self.stack == seq![(start, false)]
    }

    spec fn inv(self, edges: Set<(K, K)>, start: K, before: Seq<K>) -> bool {
        &&& self.stack_inv(edges, start)
        &&& self.open_inv(edges)
        &&& self.finished_inv(edges)
        &&& self.origin_inv(edges, start, before)
    }

    /// The search after an entry of a visited point is dropped.
    spec fn skip(self) -> Search<K> {
        Search { stack: self.stack.drop_last(), ..self }
    }

    /// The search after the innermost open point is left.
    spec fn leave(self) -> Search<K> {
        Search {
            stack: self.stack.drop_last(),
            open: self.open.drop_last(),
            open_low: self.open_low.drop_last(),
            exit_at: self.exit_at.drop_last(),
            finished: self.finished.push(self.open.last()),
            low: self.low.push(self.open_low.last()),
        }
    }

    /// The search after the point on top of the stack is entered and its neighbours are pushed.
    spec fn enter(self, pushed: Seq<(K, bool)>) -> Search<K> {
        let node = self.stack.last().0;
        Search {
            stack: self.stack.drop_last().push((node, true)) + pushed,
            open: self.open.push(node),
            open_low: self.open_low.push(self.finished.len() as int),
            exit_at: self.exit_at.push(self.stack.len() - 1),
            ..self
        }
    }

    proof fn lemma_skip(self, edges: Set<(K, K)>, start: K, before: Seq<K>)
        requires
            self.inv(edges, start, before),
            self.stack.len() > 0,
            !self.stack.last().1,
            self.visited(self.stack.last().0),
        ensures
            self.skip().inv(edges, start, before),
    {
        let s = self.skip();
        let last = self.stack.len() - 1;
        assert forall|k: int| 0 <= k < s.open.len() implies 0 <= #[trigger] s.exit_at[k]
            < s.stack.len() && s.stack[s.exit_at[k]] == (s.open[k], true) by {
            assert(self.stack[self.exit_at[k]] == (self.open[k], true));
        }
        assert forall|at: int| 0 <= at < s.stack.len() && (#[trigger] s.stack[at]).1 implies exists|
            k: int,
        |
            0 <= k < s.open.len() && #[trigger] s.exit_at[k] == at by {
            assert(self.stack[at].1);
            let k = choose|k: int| 0 <= k < self.open.len() && #[trigger] self.exit_at[k] == at;
            assert(s.exit_at[k] == at);
        }
        assert forall|at: int, k: int| #[trigger]
            s.innermost(at, k) && !s.stack[at].1 implies edges.contains((s.open[k], s.stack[at].0)) by {
            assert(self.stack[at] == s.stack[at]);
            assert(self.innermost(at, k));
        }
        if s.open.len() == 0 {
            assert(self.stack == seq![(start, false)]);
            assert(s.stack.len() == 0);
        }
        assert forall|k: int, v: K|
            0 <= k < s.open.len() && #[trigger] edges.contains((s.open[k], v)) implies s.visited(v)
            || s.pending(k, v) by {
            if !self.visited(v) {
                assert(self.pending(k, v));
                let at = choose|at: int|
                    self.exit_at[k] < at < self.stack.len() && #[trigger] self.stack[at] == (v, false);
                assert(at != last);
                assert(s.stack[at] == (v, false));
            }
        }
        assert forall|x: K| #[trigger] s.visited(x) <==> self.visited(x) by {}
        assert forall|i: int, v: K|
            0 <= i < s.finished.len() && #[trigger] edges.contains(
                (s.finished[i], v),
            ) implies s.settled(i, v) by {
            assert(self.settled(i, v));
            assert(s.settled(i, v));
        }
        assert forall|x: K| #[trigger] s.visited(x) implies before.contains(x) || reach(edges, start, x) by {
            assert(self.visited(x));
        }
        assert(s.visited(start)) by {
            if !self.visited(start) {
                assert(self.stack[0] == (start, false));
            }
        }
    }

    proof fn lemma_leave(self, edges: Set<(K, K)>, start: K, before: Seq<K>)
        requires
            self.inv(edges, start, before),
            self.stack.len() > 0,
            self.stack.last().1,
        ensures
            self.open.len() > 0,
            self.stack.last().0 == self.open.last(),
            self.leave().inv(edges, start, before),
    {
        let s = self.leave();
        let last = self.stack.len() - 1;
        let at_top = choose|k: int| 0 <= k < self.open.len() && #[trigger] self.exit_at[k] == last;
        let top = self.open.len() - 1;
        if at_top < top {
            assert(self.exit_at[at_top] < self.exit_at[top]);
        }
        assert(self.exit_at[top] == last);
        let node = self.open.last();
        let n = self.finished.len() as int;
        assert(!self.finished.contains(node)) by {
            assert(self.open[top] == node);
            assert(self.open.contains(node));
        }
        assert forall|x: K| #[trigger] s.visited(x) <==> self.visited(x) by {
            if self.finished.contains(x) {
                let m = self.finished.index_of(x);
                assert(s.finished[m] == x);
            }
            if self.open.contains(x) {
                let k = self.open.index_of(x);
                if k == top {
                    assert(s.finished[n] == x);
                } else {
                    assert(s.open[k] == x);
                }
            }
            if s.finished.contains(x) {
                let m = s.finished.index_of(x);
                if m < n {
                    assert(self.finished[m] == x);
                }
            }
            if s.open.contains(x) {
                let k = s.open.index_of(x);
                assert(self.open[k] == x);
            }
        }
        // The stack.
        assert forall|k: int| 0 <= k < s.open.len() implies 0 <= #[trigger] s.exit_at[k]
            < s.stack.len() && s.stack[s.exit_at[k]] == (s.open[k], true) by {
            assert(self.exit_at[k] < self.exit_at[top]);
            assert(self.stack[self.exit_at[k]] == (self.open[k], true));
        }
        assert forall|at: int| 0 <= at < s.stack.len() && (#[trigger] s.stack[at]).1 implies exists|
            k: int,
        |
            0 <= k < s.open.len() && #[trigger] s.exit_at[k] == at by {
            assert(self.stack[at].1);
            let k = choose|k: int| 0 <= k < self.open.len() && #[trigger] self.exit_at[k] == at;
            assert(k != top);
            assert(s.exit_at[k] == at);
        }
        assert forall|at: int, k: int| #[trigger]
            s.innermost(at, k) && !s.stack[at].1 implies edges.contains((s.open[k], s.stack[at].0)) by {
            assert(self.stack[at] == s.stack[at]);
            if k + 1 == s.open.len() {
                assert(at < self.exit_at[k + 1]);
            }
            assert(self.innermost(at, k));
        }
        // The open points.
        assert forall|k: int, v: K|
            0 <= k < s.open.len() && #[trigger] edges.contains((s.open[k], v)) implies s.visited(v)
            || s.pending(k, v) by {
            assert(s.open[k] == self.open[k]);
            if !self.visited(v) {
                assert(self.pending(k, v));
                let at = choose|at: int|
                    self.exit_at[k] < at < self.stack.len() && #[trigger] self.stack[at] == (v, false);
                assert(at != last);
                assert(s.stack[at] == (v, false));
            }
        }
        assert forall|k: int, j: int|
            0 <= k < s.open.len() && #[trigger] s.open_low[k] <= j < s.finished.len() implies reach(
            edges,
            s.open[k],
            #[trigger] s.finished[j],
        ) by {
            if j == n {
                assert(reach(edges, self.open[k], self.open[top]));
            } else {
                assert(self.open_low[k] <= j);
                assert(s.finished[j] == self.finished[j]);
            }
        }
        assert forall|k: int, j: int|
            0 <= k < s.open.len() && #[trigger] s.open_low[k] <= j < s.finished.len() implies s.open_low[k]
            <= #[trigger] s.low[j] by {
            if j == n {
                assert(self.open_low[k] <= self.open_low[top]);
            } else {
                assert(self.open_low[k] <= self.low[j]);
            }
        }
        assert forall|x: K| !(#[trigger] s.finished.contains(x) && s.open.contains(x)) by {
            if s.finished.contains(x) && s.open.contains(x) {
                let k = s.open.index_of(x);
                let m = s.finished.index_of(x);
                assert(self.open[k] == x);
                if m < n {
                    assert(self.finished[m] == x);
                    assert(self.finished.contains(x) && self.open.contains(x));
                } else {
                    assert(self.open[top] == x);
                }
            }
        }
        // The points left.
        assert(s.finished.no_duplicates()) by {
            assert forall|i: int, j: int| 0 <= i < j < s.finished.len() implies s.finished[i] != s.finished[j] by {
                if j == n {
                    assert(self.finished[i] != node);
                }
            }
        }
        assert forall|i: int, j: int|
            0 <= i < s.finished.len() && #[trigger] s.low[i] <= j <= i implies reach(
            edges,
            s.finished[i],
            #[trigger] s.finished[j],
        ) by {
            if i == n {
                if j == n {
                    lemma_reach_self(edges, node);
                } else {
                    assert(self.open_low[top] <= j);
                    assert(reach(edges, self.open[top], self.finished[j]));
                }
            } else {
                assert(self.low[i] <= j);
                assert(s.finished[j] == self.finished[j]);
            }
        }
        assert forall|i: int, j: int|
            0 <= i < s.finished.len() && #[trigger] s.low[i] <= j <= i implies s.low[i]
            <= #[trigger] s.low[j] by {
            if i == n {
                if j < n {
                    assert(self.open_low[top] <= self.low[j]);
                }
            } else {
                assert(self.low[i] <= self.low[j]);
            }
        }
        assert forall|i: int, v: K|
            0 <= i < s.finished.len() && #[trigger] edges.contains(
                (s.finished[i], v),
            ) implies s.settled(i, v) by {
            if i == n {
                assert(edges.contains((self.open[top], v)));
                assert(!self.pending(top, v));
                assert(self.visited(v));
                if self.finished.contains(v) {
                    let m = self.finished.index_of(v);
                    assert(s.finished[m] == v);
                } else {
                    let k = self.open.index_of(v);
                    assert(self.open[k] == v);
                    if k == top {
                        assert(s.finished[n] == v);
                        assert(s.low[n] <= n);
                    } else {
                        assert(s.open[k] == v);
                        assert(s.open_low[k] == self.open_low[k]);
                    }
                }
            } else {
                assert(s.finished[i] == self.finished[i]);
                assert(self.settled(i, v));
                if exists|m: int|
                    0 <= m < self.finished.len() && #[trigger] self.finished[m] == v && (m < i
                        || self.low[m] <= i) {
                    let m = choose|m: int|
                        0 <= m < self.finished.len() && #[trigger] self.finished[m] == v && (m < i
                            || self.low[m] <= i);
                    assert(s.finished[m] == v);
                } else {
                    let k = choose|k: int|
                        0 <= k < self.open.len() && #[trigger] self.open[k] == v && self.open_low[k] <= i;
                    if k == top {
                        assert(s.finished[n] == v);
                        assert(s.low[n] == self.open_low[top]);
                    } else {
                        assert(s.open[k] == v);
                        assert(s.open_low[k] == self.open_low[k]);
                    }
                }
            }
        }
        // Where the points come from.
        assert forall|x: K| #[trigger] s.visited(x) implies before.contains(x) || reach(edges, start, x) by {
            assert(self.visited(x));
        }
        assert(s.visited(start)) by {
            assert(self.stack[last].1);
            assert(self.stack != seq![(start, false)]);
        }
    }

    proof fn lemma_enter(
        self,
        edges: Set<(K, K)>,
        start: K,
        before: Seq<K>,
        pushed: Seq<(K, bool)>,
    )
        requires
            self.inv(edges, start, before),
            self.stack.len() > 0,
            !self.stack.last().1,
            !self.visited(self.stack.last().0),
            forall|i: int|
                0 <= i < pushed.len() ==> !(#[trigger] pushed[i]).1 && edges.contains(
                    (self.stack.last().0, pushed[i].0),
                ),
            forall|v: K| #[trigger]
                edges.contains((self.stack.last().0, v)) ==> self.visited(v) || v
                    == self.stack.last().0 || pushed.contains((v, false)),
        ensures
            self.enter(pushed).inv(edges, start, before),
    {
        let s = self.enter(pushed);
        let last = self.stack.len() - 1;
        let node = self.stack.last().0;
        let top = self.open.len() as int;
        let n = self.finished.len() as int;
        assert forall|at: int| 0 <= at < last implies #[trigger] s.stack[at] == self.stack[at] by {}
        assert(s.stack[last] == (node, true));
        assert forall|at: int| last < at < s.stack.len() implies #[trigger] s.stack[at]
            == pushed[at - last - 1] by {}
        assert forall|x: K| #[trigger] s.visited(x) <==> self.visited(x) || x == node by {
            if self.open.contains(x) {
                let k = self.open.index_of(x);
                assert(s.open[k] == x);
            }
            if x == node {
                assert(s.open[top] == x);
            }
            if s.open.contains(x) {
                let k = s.open.index_of(x);
                if k < top {
                    assert(self.open[k] == x);
                }
            }
        }
        assert(!self.open.contains(node) && !self.finished.contains(node));
        assert(reach(edges, start, node)) by {
            assert(self.stack[last].0 == node);
        }
        if top > 0 {
            // The entry was pushed as a neighbour of the innermost open point.
            assert(self.exit_at[top - 1] < last) by {
                assert(self.stack[self.exit_at[top - 1]].1);
            }
            assert(self.stack[last] == (node, false));
            assert(self.innermost(last, top - 1));
            assert(edges.contains((self.open[top - 1], node)));
        } else {
            assert(last == 0);
        }
        // The stack.
        assert forall|k: int| 0 <= k < s.open.len() implies 0 <= #[trigger] s.exit_at[k]
            < s.stack.len() && s.stack[s.exit_at[k]] == (s.open[k], true) by {
            if k < top {
                assert(self.stack[self.exit_at[k]] == (self.open[k], true));
                assert(self.exit_at[k] != last);
            }
        }
        assert forall|k: int, l: int| 0 <= k < l < s.open.len() implies #[trigger] s.exit_at[k]
            < #[trigger] s.exit_at[l] by {
            if l == top {
                assert(self.stack[self.exit_at[k]].1);
                assert(self.exit_at[k] != last);
            } else {
                assert(self.exit_at[k] < self.exit_at[l]);
            }
        }
        assert forall|at: int| 0 <= at < s.stack.len() && (#[trigger] s.stack[at]).1 implies exists|
            k: int,
        |
            0 <= k < s.open.len() && #[trigger] s.exit_at[k] == at by {
            if at < last {
                assert(self.stack[at].1);
                let k = choose|k: int| 0 <= k < self.open.len() && #[trigger] self.exit_at[k] == at;
                assert(s.exit_at[k] == at);
            } else if at == last {
                assert(s.exit_at[top] == at);
            } else {
                assert(!pushed[at - last - 1].1);
            }
        }
        assert forall|at: int, k: int| #[trigger]
            s.innermost(at, k) && !s.stack[at].1 implies edges.contains((s.open[k], s.stack[at].0)) by {
            if k == top {
                assert(s.stack[at] == pushed[at - last - 1]);
            } else {
                assert(at < s.exit_at[k + 1]);
                if k + 1 == top {
                    assert(s.exit_at[k + 1] == last);
                } else {
                    assert(self.exit_at[k + 1] < s.exit_at[top]);
                }
                assert(self.stack[at] == s.stack[at]);
                assert(self.innermost(at, k));
            }
        }
        if top == 0 {
            assert(s.exit_at[0] == 0);
        } else {
            assert(s.exit_at[0] == self.exit_at[0]);
        }
        // The open points.
        assert(s.open.no_duplicates()) by {
            assert forall|i: int, j: int| 0 <= i < j < s.open.len() implies s.open[i] != s.open[j] by {
                if j == top {
                    assert(self.open[i] != node);
                }
            }
        }
        assert forall|k: int, l: int| 0 <= k <= l < s.open.len() implies reach(
            edges,
            #[trigger] s.open[k],
            #[trigger] s.open[l],
        ) by {
            if l == top {
                if k == top {
                    lemma_reach_self(edges, node);
                } else {
                    assert(reach(edges, self.open[k], self.open[top - 1]));
                    lemma_reach_append(edges, self.open[k], self.open[top - 1], node);
                }
            } else {
                assert(reach(edges, self.open[k], self.open[l]));
            }
        }
        assert forall|k: int, v: K|
            0 <= k < s.open.len() && #[trigger] edges.contains((s.open[k], v)) implies s.visited(v)
            || s.pending(k, v) by {
            if k == top {
                if !self.visited(v) && v != node {
                    let i = pushed.index_of((v, false));
                    assert(s.stack[last + 1 + i] == (v, false));
                }
            } else {
                assert(s.open[k] == self.open[k]);
                if !self.visited(v) && v != node {
                    assert(self.pending(k, v));
                    let at = choose|at: int|
                        self.exit_at[k] < at < self.stack.len() && #[trigger] self.stack[at] == (v, false);
                    assert(at != last);
                    assert(s.stack[at] == (v, false));
                }
            }
        }
        assert forall|k: int, j: int|
            0 <= k < s.open.len() && #[trigger] s.open_low[k] <= j < s.finished.len() implies reach(
            edges,
            s.open[k],
            #[trigger] s.finished[j],
        ) by {
            if k < top {
                assert(self.open_low[k] <= j);
                assert(reach(edges, self.open[k], self.finished[j]));
            }
        }
        assert forall|k: int, j: int|
            0 <= k < s.open.len() && #[trigger] s.open_low[k] <= j < s.finished.len() implies s.open_low[k]
            <= #[trigger] s.low[j] by {
            if k < top {
                assert(self.open_low[k] <= self.low[j]);
            }
        }
        assert forall|x: K| !(#[trigger] s.finished.contains(x) && s.open.contains(x)) by {
            if s.finished.contains(x) && s.open.contains(x) {
                let k = s.open.index_of(x);
                if k < top {
                    assert(self.open[k] == x);
                    assert(self.finished.contains(x) && self.open.contains(x));
                }
            }
        }
        // The points left.
        assert forall|i: int, v: K|
            0 <= i < s.finished.len() && #[trigger] edges.contains(
                (s.finished[i], v),
            ) implies s.settled(i, v) by {
            assert(self.settled(i, v));
            if exists|k: int|
                0 <= k < self.open.len() && #[trigger] self.open[k] == v && self.open_low[k] <= i {
                let k = choose|k: int|
                    0 <= k < self.open.len() && #[trigger] self.open[k] == v && self.open_low[k] <= i;
                assert(s.open[k] == v);
                assert(s.open_low[k] == self.open_low[k]);
            }
        }
        // Where the points come from.
        assert forall|at: int| 0 <= at < s.stack.len() implies reach(
            edges,
            start,
            (#[trigger] s.stack[at]).0,
        ) by {
            if at > last {
                assert(s.stack[at] == pushed[at - last - 1]);
                lemma_reach_append(edges, start, node, s.stack[at].0);
            } else if at < last {
                assert(s.stack[at] == self.stack[at]);
            }
        }
        assert(s.visited(start)) by {
            if !self.visited(start) {
                assert(self.stack[0] == (start, false));
            }
        }
    }
}

/// What is left to do on a work stack: an entry still to be explored counts twice.
spec fn stack_weight<K>(stack: Seq<(K, bool)>) -> nat
    decreases stack.len(),
{
    if stack.len() == 0 {
        0
    } else {
        stack_weight(stack.drop_last()) + if stack.last().1 {
            1nat
        } else {
            2nat
        }
    }
}

/// What a search that has come to its end has found.
proof fn lemma_search_done<K>(search: Search<K>, edges: Set<(K, K)>, start: K, before: Seq<K>)
    requires
        search.inv(edges, start, before),
        search.stack.len() == 0,
        is_finish_order(edges, before),
    ensures
        is_finish_order(edges, search.finished),
        before.is_prefix_of(search.finished),
        forall|x: K|
            search.finished.to_set().contains(x) <==> before.contains(x) || #[trigger] reach(
                edges,
                start,
                x,
            ),
{
    assert(search.open.len() == 0) by {
        if search.open.len() > 0 {
            assert(search.exit_at[0] < search.stack.len());
        }
    }
    assert forall|i: int, v: K|
        0 <= i < search.finished.len() && #[trigger] edges.contains(
            (search.finished[i], v),
        ) implies exists|m: int|
        0 <= m < search.finished.len() && #[trigger] search.finished[m] == v && (m < i
            || search.low[m] <= i) by {
        assert(search.settled(i, v));
    }
    assert(finish_intervals(edges, search.finished, search.low));
    let all = search.finished.to_set();
    assert(closed_under(edges, all)) by {
        assert forall|x: K, y: K| #[trigger]
            edges.contains((x, y)) && all.contains(x) implies all.contains(y) by {
            let i = search.finished.index_of(x);
            assert(edges.contains((search.finished[i], y)));
        }
    }
    assert(search.visited(start));
    assert forall|x: K|
        search.finished.to_set().contains(x) <==> before.contains(x) || #[trigger] reach(
            edges,
            start,
            x,
        ) by {
        if search.finished.contains(x) {
            assert(search.visited(x));
        }
        if before.contains(x) {
            let i = before.index_of(x);
            assert(search.finished[i] == x);
        }
        if reach(edges, start, x) {
            lemma_reach_stays(edges, all, start, x);
        }
    }
}

/// Explores what `start` reaches and has not been visited, and adds each point to `finish_stack`
/// when it is left.
pub fn dfs_finish_iterative<K: Key>(
    start: &K,
    graph: &OrderedMap<K, OrderedSet<K>>,
    visited: &mut OrderedSet<K>,
    finish_stack: &mut Vec<K>,
)
    requires
        is_finish_order(graph_edges(graph@), old(finish_stack)@),
        old(visited)@ == old(finish_stack)@.to_set(),
    ensures
        is_finish_order(graph_edges(graph@), final(finish_stack)@),
        final(visited)@ == final(finish_stack)@.to_set(),
        old(finish_stack)@.is_prefix_of(final(finish_stack)@),
        forall|x: K|
            final(visited)@.contains(x) <==> old(visited)@.contains(x) || #[trigger] reach(
                graph_edges(graph@),
                *start,
                x,
            ),
{
    let ghost edges = graph_edges(graph@);
    let ghost before = finish_stack@;
    let mut stack: Vec<(K, bool)> = Vec::new();
    stack.push((*start, false));
    let ghost mut search = Search {
        stack: stack@,
        open: Seq::<K>::empty(),
        open_low: Seq::<int>::empty(),
        exit_at: Seq::<int>::empty(),
        finished: finish_stack@,
        low: choose|low: Seq<int>| finish_intervals(edges, before, low),
    };
    let known = graph.len();
    proof {
        lemma_reach_self(edges, *start);
        assert(finish_intervals(edges, before, search.low));
        assert(search.stack =~= seq![(*start, false)]);
        assert forall|i: int, v: K|
            0 <= i < search.finished.len() && #[trigger] edges.contains(
                (search.finished[i], v),
            ) implies search.settled(i, v) by {}
        assert(search.inv(edges, *start, before));
    }
    loop
        invariant
            edges == graph_edges(graph@),
            graph@.dom().finite(),
            is_finish_order(edges, before),
            search.inv(edges, *start, before),
            search.stack == stack@,
            search.finished == finish_stack@,
            forall|x: K| visited@.contains(x) <==> #[trigger] search.visited(x),
        ensures
            search.stack.len() == 0,
        decreases graph@.dom().difference(visited@).len(), stack_weight(stack@),
    {
        let ghost search_before = search;
        match stack.pop() {
            None => {
                break;
            },
            Some((node, exiting)) => {
                assert(search_before.stack.drop_last() =~= stack@);
                assert(search_before.stack.last() == (node, exiting));
                if exiting {
                    proof {
                        search.lemma_leave(edges, *start, before);
                        search = search.leave();
                        assert forall|x: K| visited@.contains(x) <==> #[trigger] search.visited(x) by {
                            assert(visited@.contains(x) <==> search_before.visited(x));
                            lemma_leave_visited(search_before, x);
                        }
                    }
                    finish_stack.push(node);
                } else {
                    let ghost seen = visited@;
                    let fresh = visited.insert(node);
                    if !fresh {
                        proof {
                            search.lemma_skip(edges, *start, before);
                            search = search.skip();
                            assert(visited@ =~= seen);
                            assert forall|x: K| visited@.contains(x) <==> #[trigger] search.visited(x) by {
                                assert(visited@.contains(x) <==> search_before.visited(x));
                            }
                        }
                    } else {
                        stack.push((node, true));
                        let ghost base = stack@;
                        let ghost mut pushed = Seq::<(K, bool)>::empty();
                        assert(stack@ =~= base + pushed);
                        match graph.get(&node) {
                            Some(neighbors) => {
                                let count = neighbors.len();
                                let mut i: usize = 0;
                                while i < count
                                    invariant
                                        i <= count,
                                        count == neighbors.member_seq().len(),
                                        neighbors@ == neighbors.member_seq().to_set(),
                                        stack@ == base + pushed,
                                        edges == graph_edges(graph@),
                                        graph@.contains_key(node),
                                        graph@[node] == *neighbors,
                                        forall|j: int|
                                            0 <= j < pushed.len() ==> !(#[trigger] pushed[j]).1
                                                && edges.contains((node, pushed[j].0)),
                                        forall|j: int|
                                            0 <= j < i ==> visited@.contains(
                                                #[trigger] neighbors.member_seq()[j],
                                            ) || pushed.contains((neighbors.member_seq()[j], false)),
                                    decreases count - i,
                                {
                                    let neighbor = neighbors.at(i);
                                    if !visited.contains(&neighbor) {
                                        let ghost pushed_before = pushed;
                                        stack.push((neighbor, false));
                                        proof {
                                            pushed = pushed.push((neighbor, false));
                                            assert(stack@ =~= base + pushed);
                                            assert(edges.contains((node, neighbor)));
                                            assert(pushed[pushed_before.len() as int] == (neighbor, false));
                                            assert forall|j: int| 0 <= j < i implies visited@.contains(
                                                #[trigger] neighbors.member_seq()[j],
                                            ) || pushed.contains((neighbors.member_seq()[j], false)) by {
                                                let item = (neighbors.member_seq()[j], false);
                                                if pushed_before.contains(item) {
                                                    let m = pushed_before.index_of(item);
                                                    assert(pushed[m] == item);
                                                }
                                            }
                                        }
                                    }
                                    i = i + 1;
                                }
                                proof {
                                    assert forall|v: K| #[trigger]
                                        edges.contains((node, v)) implies visited@.contains(v)
                                        || pushed.contains((v, false)) by {
                                        let j = neighbors.member_seq().index_of(v);
                                        assert(neighbors.member_seq()[j] == v);
                                    }
                                }
                            },
                            None => {},
                        }
                        proof {
                            assert(!search_before.visited(node));
                            assert forall|v: K| #[trigger]
                                edges.contains((node, v)) implies search_before.visited(v) || v == node
                                || pushed.contains((v, false)) by {
                                if visited@.contains(v) && v != node {
                                    assert(seen.contains(v));
                                }
                            }
                            search.lemma_enter(edges, *start, before, pushed);
                            search = search.enter(pushed);
                            assert(search.stack =~= stack@);
                            assert forall|x: K| visited@.contains(x) <==> #[trigger] search.visited(x) by {
                                assert(seen.contains(x) <==> search_before.visited(x));
                                lemma_enter_visited(search_before, pushed, x);
                            }
                            let left = graph@.dom().difference(seen);
                            let left_now = graph@.dom().difference(visited@);
                            if graph@.contains_key(node) {
                                assert(left_now =~= left.remove(node));
                            } else {
                                assert(left_now =~= left);
                                assert(pushed.len() == 0);
                                assert(stack@ =~= base);
                                assert(base.drop_last() =~= search_before.stack.drop_last());
                            }
                        }
                    }
                }
            },
        }
    }
    proof {
        lemma_search_done(search, edges, *start, before);
        assert(visited@ =~= finish_stack@.to_set()) by {
            assert(search.open.len() == 0) by {
                if search.open.len() > 0 {
                    assert(search.exit_at[0] < search.stack.len());
                }
            }
            assert forall|x: K| visited@.contains(x) <==> finish_stack@.to_set().contains(x) by {
                assert(visited@.contains(x) <==> search.visited(x));
            }
        }
    }
}

proof fn lemma_leave_visited<K>(search: Search<K>, x: K)
    requires
        search.open.len() > 0,
    ensures
        search.leave().visited(x) == search.visited(x),
{
    let after = search.leave();
    if search.finished.contains(x) {
        assert(after.finished[search.finished.index_of(x)] == x);
    }
    if search.open.contains(x) {
        let k = search.open.index_of(x);
        if k == search.open.len() - 1 {
            assert(after.finished[search.finished.len() as int] == x);
        } else {
            assert(after.open[k] == x);
        }
    }
    if after.finished.contains(x) {
        let m = after.finished.index_of(x);
        if m < search.finished.len() {
            assert(search.finished[m] == x);
        } else {
            assert(search.open[search.open.len() - 1] == x);
        }
    }
    if after.open.contains(x) {
        assert(search.open[after.open.index_of(x)] == x);
    }
}

proof fn lemma_enter_visited<K>(search: Search<K>, pushed: Seq<(K, bool)>, x: K)
    requires
        search.stack.len() > 0,
    ensures
        search.enter(pushed).visited(x) == (search.visited(x) || x == search.stack.last().0),
{
    let after = search.enter(pushed);
    if search.open.contains(x) {
        assert(after.open[search.open.index_of(x)] == x);
    }
    if x == search.stack.last().0 {
        assert(after.open[search.open.len() as int] == x);
    }
    if after.open.contains(x) {
        let k = after.open.index_of(x);
        if k < search.open.len() {
            assert(search.open[k] == x);
        }
    }
}

/// Adds an edge; tells whether it is new.
pub fn add_edge<K: Key>(graph: &mut OrderedMap<K, OrderedSet<K>>, from: K, to: K) -> (added: bool)
    ensures
        graph_edges(final(graph)@) == graph_edges(old(graph)@).insert((from, to)),
        final(graph)@.dom() == old(graph)@.dom().insert(from),
        added == !graph_edges(old(graph)@).contains((from, to)),
{
    let ghost before = graph@;
    let added = match graph.get_mut(&from) {
        Some(successors) => Some(successors.insert(to)),
        None => None,
    };
    let added = match added {
        Some(added) => added,
        None => {
            let mut successors = OrderedSet::new();
            let _ = successors.insert(to);
            let _ = graph.insert(from, successors);
            true
        },
    };
    assert(graph_edges(graph@) =~= graph_edges(before).insert((from, to)));
    assert(graph@.dom() =~= before.dom().insert(from));
    added
}

/// A graph with the given points and no edge.
pub fn edgeless<K: Key>(nodes: &[K]) -> (graph: OrderedMap<K, OrderedSet<K>>)
    ensures
        graph@.dom() == nodes@.to_set(),
        graph_edges(graph@) == Set::<(K, K)>::empty(),
{
    let mut graph: OrderedMap<K, OrderedSet<K>> = OrderedMap::new();
    let mut i: usize = 0;
    while i < nodes.len()
        invariant
            i <= nodes@.len(),
            graph@.dom() == nodes@.take(i as int).to_set(),
            forall|k: K| graph@.contains_key(k) ==> (#[trigger] graph@[k])@ == Set::<K>::empty(),
        decreases nodes.len() - i,
    {
        let ghost before = graph@;
        let _ = graph.insert(nodes[i], OrderedSet::new());
        proof {
            assert(nodes@.take(i + 1) =~= nodes@.take(i as int).push(nodes@[i as int]));
            assert forall|k: K| nodes@.take(i + 1).contains(k) <==> nodes@.take(i as int).contains(k)
                || k == nodes@[i as int] by {
                if nodes@.take(i as int).contains(k) {
                    let j = nodes@.take(i as int).index_of(k);
                    assert(nodes@.take(i + 1)[j] == k);
                }
                if k == nodes@[i as int] {
                    assert(nodes@.take(i + 1)[i as int] == k);
                }
            }
            assert(graph@.dom() =~= nodes@.take(i + 1).to_set());
        }
        i = i + 1;
    }
    assert(nodes@.take(nodes@.len() as int) =~= nodes@);
    assert(graph_edges(graph@) =~= Set::<(K, K)>::empty());
    graph
}

/// The edges that start at one of the given points.
spec fn edges_from<K>(edges: Set<(K, K)>, sources: Seq<K>) -> Set<(K, K)> {
    edges.filter(|e: (K, K)| sources.contains(e.0))
}

/// The graph over `nodes` with every edge turned around.
fn reverse_graph<K: Key>(nodes: &[K], graph: &OrderedMap<K, OrderedSet<K>>) -> (turned:
    OrderedMap<K, OrderedSet<K>>)
    ensures
        graph_edges(turned@) == reversed(graph_edges(graph@)),
{
    let ghost edges = graph_edges(graph@);
    let mut turned = edgeless(nodes);
    let count = graph.len();
    let mut i: usize = 0;
    assert(graph_edges(turned@) =~= reversed(edges_from(edges, graph.key_seq().take(0))));
    while i < count
        invariant
            i <= count,
            count == graph.key_seq().len(),
            graph.key_seq().no_duplicates(),
            graph@.dom() == graph.key_seq().to_set(),
            edges == graph_edges(graph@),
            graph_edges(turned@) == reversed(edges_from(edges, graph.key_seq().take(i as int))),
        decreases count - i,
    {
        let from = graph.key_at(i);
        let successors = graph.value_at(i);
        let degree = successors.len();
        let ghost base = graph_edges(turned@);
        let mut j: usize = 0;
        while j < degree
            invariant
                j <= degree,
                degree == successors.member_seq().len(),
                forall|e: (K, K)| #[trigger]
                    graph_edges(turned@).contains(e) <==> base.contains(e) || (e.1 == from
                        && successors.member_seq().take(j as int).contains(e.0)),
            decreases degree - j,
        {
            let to = successors.at(j);
            let ghost before = graph_edges(turned@);
            let _ = add_edge(&mut turned, to, from);
            proof {
                let prefix = successors.member_seq().take(j as int);
                let longer = successors.member_seq().take(j + 1);
                assert(longer =~= prefix.push(to));
                assert forall|e: (K, K)| #[trigger]
                    graph_edges(turned@).contains(e) <==> base.contains(e) || (e.1 == from
                        && longer.contains(e.0)) by {
                    assert(before.contains(e) <==> base.contains(e) || (e.1 == from
                        && prefix.contains(e.0)));
                    if prefix.contains(e.0) {
                        assert(longer[prefix.index_of(e.0)] == e.0);
                    }
                    if e.0 == to {
                        assert(longer[j as int] == e.0);
                    }
                }
            }
            j = j + 1;
        }
        proof {
            let keys = graph.key_seq().take(i as int);
            let more = graph.key_seq().take(i + 1);
            assert(more =~= keys.push(from));
            assert(successors.member_seq().take(degree as int) =~= successors.member_seq());
            assert forall|e: (K, K)| graph_edges(turned@).contains(e) <==> reversed(
                edges_from(edges, more),
            ).contains(e) by {
                assert(graph_edges(turned@).contains(e) <==> base.contains(e) || (e.1 == from
                    && successors.member_seq().take(degree as int).contains(e.0)));
                if keys.contains(e.1) {
                    assert(more[keys.index_of(e.1)] == e.1);
                }
                if e.1 == from {
                    assert(more[i as int] == e.1);
                    assert(successors@.contains(e.0) <==> successors.member_seq().contains(e.0));
                }
                if more.contains(e.1) && e.1 != from {
                    assert(keys[more.index_of(e.1)] == e.1);
                }
            }
            assert(graph_edges(turned@) =~= reversed(edges_from(edges, more)));
        }
        i = i + 1;
    }
    proof {
        assert(graph.key_seq().take(count as int) =~= graph.key_seq());
        assert(edges_from(edges, graph.key_seq()) =~= edges) by {
            assert forall|e: (K, K)| edges.contains(e) implies graph.key_seq().contains(e.0) by {
                assert(graph@.dom().contains(e.0));
            }
        }
    }
    turned
}

/// Collects what `start` reaches without touching a visited point, and marks it visited.
pub fn collect_reverse_component<K: Key>(
    start: K,
    reverse_graph: &OrderedMap<K, OrderedSet<K>>,
    visited: &mut OrderedSet<K>,
) -> (component: Vec<K>)
    ensures
        component@.no_duplicates(),
        forall|x: K|
            component@.contains(x) <==> !old(visited)@.contains(start) && #[trigger] reach(
                avoiding(graph_edges(reverse_graph@), old(visited)@),
                start,
                x,
            ),
        final(visited)@ == old(visited)@.union(component@.to_set()),
{
    let ghost excluded = visited@;
    let ghost edges = avoiding(graph_edges(reverse_graph@), excluded);
    let mut component: Vec<K> = Vec::new();
    let mut stack: Vec<K> = Vec::new();
    stack.push(start);
    let known = reverse_graph.len();
    proof {
        lemma_reach_self(edges, start);
        assert(stack@[0] == start);
        assert(stack@.contains(start));
    }
    loop
        invariant
            edges == avoiding(graph_edges(reverse_graph@), excluded),
            reverse_graph@.dom().finite(),
            component@.no_duplicates(),
            forall|x: K|
                #[trigger] visited@.contains(x) <==> excluded.contains(x) || component@.contains(x),
            forall|x: K| !(#[trigger] component@.contains(x) && excluded.contains(x)),
            forall|x: K| #[trigger] component@.contains(x) ==> reach(edges, start, x),
            forall|x: K| #[trigger]
                stack@.contains(x) ==> reach(edges, start, x) && (x == start || !excluded.contains(x)),
            forall|x: K, y: K| #[trigger]
                edges.contains((x, y)) && component@.contains(x) ==> component@.contains(y)
                    || stack@.contains(y),
            component@.contains(start) || stack@.contains(start) || excluded.contains(start),
            excluded.contains(start) ==> component@.len() == 0,
        ensures
            stack@.len() == 0,
        decreases reverse_graph@.dom().difference(visited@).len(), stack@.len(),
    {
        let ghost stack_before = stack@;
        match stack.pop() {
            None => {
                break;
            },
            Some(node) => {
                proof {
                    assert(stack_before.last() == node);
                    assert(stack_before.contains(node));
                    assert forall|x: K| #[trigger] stack_before.contains(x) implies x == node
                        || stack@.contains(x) by {
                        let k = stack_before.index_of(x);
                        if k < stack@.len() {
                            assert(stack@[k] == x);
                        }
                    }
                    assert forall|x: K| #[trigger] stack@.contains(x) implies stack_before.contains(x) by {
                        assert(stack_before[stack@.index_of(x)] == x);
                    }
                }
                let ghost seen = visited@;
                let fresh = visited.insert(node);
                if !fresh {
                    assert(visited@ =~= seen);
                    continue;
                }
                let ghost component_before = component@;
                component.push(node);
                proof {
                    assert(seen.contains(node) <==> excluded.contains(node)
                        || component_before.contains(node));
                    assert(component@[component_before.len() as int] == node);
                    assert forall|x: K| #[trigger] component@.contains(x) <==> component_before.contains(x)
                        || x == node by {
                        if component_before.contains(x) {
                            assert(component@[component_before.index_of(x)] == x);
                        }
                    }
                    assert forall|x: K|
                        #[trigger] visited@.contains(x) <==> excluded.contains(x) || component@.contains(
                            x,
                        ) by {
                        assert(seen.contains(x) <==> excluded.contains(x) || component_before.contains(x));
                    }
                }
                let ghost popped = stack@;
                match reverse_graph.get(&node) {
                    Some(neighbors) => {
                        let count = neighbors.len();
                        let mut i: usize = 0;
                        while i < count
                            invariant
                                i <= count,
                                count == neighbors.member_seq().len(),
                                neighbors@ == neighbors.member_seq().to_set(),
                                edges == avoiding(graph_edges(reverse_graph@), excluded),
                                reverse_graph@.contains_key(node),
                                reverse_graph@[node] == *neighbors,
                                !excluded.contains(node),
                                reach(edges, start, node),
                                forall|x: K|
                                    #[trigger] visited@.contains(x) <==> excluded.contains(x)
                                        || component@.contains(x),
                                forall|x: K| #[trigger] popped.contains(x) ==> stack@.contains(x),
                                forall|x: K| #[trigger]
                                    stack@.contains(x) ==> reach(edges, start, x) && (x == start
                                        || !excluded.contains(x)),
                                forall|j: int|
                                    0 <= j < i ==> visited@.contains(
                                        #[trigger] neighbors.member_seq()[j],
                                    ) || stack@.contains(neighbors.member_seq()[j]),
                            decreases count - i,
                        {
                            let neighbor = neighbors.at(i);
                            if !visited.contains(&neighbor) {
                                let ghost earlier = stack@;
                                stack.push(neighbor);
                                proof {
                                    assert(edges.contains((node, neighbor)));
                                    lemma_reach_append(edges, start, node, neighbor);
                                    assert(stack@[earlier.len() as int] == neighbor);
                                    assert forall|x: K| #[trigger] stack@.contains(x) <==> earlier.contains(x)
                                        || x == neighbor by {
                                        if earlier.contains(x) {
                                            assert(stack@[earlier.index_of(x)] == x);
                                        }
                                    }
                                }
                            }
                            i = i + 1;
                        }
                        proof {
                            assert forall|y: K| #[trigger]
                                edges.contains((node, y)) implies component@.contains(y)
                                || stack@.contains(y) by {
                                let j = neighbors.member_seq().index_of(y);
                                assert(neighbors.member_seq()[j] == y);
                                assert(visited@.contains(y) ==> excluded.contains(y)
                                    || component@.contains(y));
                            }
                        }
                    },
                    None => {},
                }
                proof {
                    assert forall|x: K, y: K| #[trigger]
                        edges.contains((x, y)) && component@.contains(x) implies component@.contains(y)
                        || stack@.contains(y) by {
                        if x != node {
                            assert(component_before.contains(x));
                            assert(component_before.contains(y) || stack_before.contains(y));
                        }
                    }
                    let left = reverse_graph@.dom().difference(seen);
                    let left_now = reverse_graph@.dom().difference(visited@);
                    if reverse_graph@.contains_key(node) {
                        assert(left_now =~= left.remove(node));
                    } else {
                        assert(left_now =~= left);
                    }
                }
            },
        }
    }
    proof {
        let all = component@.to_set();
        assert(closed_under(edges, all));
        assert forall|x: K|
            component@.contains(x) <==> !excluded.contains(start) && #[trigger] reach(edges, start, x) by {
            if component@.contains(x) {
                if excluded.contains(start) {
                    assert(component@.len() == 0);
                }
            }
            if !excluded.contains(start) && reach(edges, start, x) {
                lemma_reach_stays(edges, all, start, x);
            }
        }
        assert(visited@ =~= excluded.union(component@.to_set()));
    }
    component
}

/// Whether `components` are the strongly connected components of `points`, each point once.
pub open spec fn are_components<K>(
    edges: Set<(K, K)>,
    points: Set<K>,
    components: Seq<Seq<K>>,
) -> bool {
    &&& forall|c: int|
        0 <= c < components.len() ==> (#[trigger] components[c]).len() > 0
            && components[c].no_duplicates()
    &&& forall|c: int, x: K, y: K|
        #![trigger components[c].contains(x), components[c].contains(y)]
        0 <= c < components.len() && components[c].contains(x) ==> (components[c].contains(y)
            <==> points.contains(y) && connected(edges, x, y))
    &&& forall|x: K| #[trigger]
        points.contains(x) ==> exists|c: int|
            0 <= c < components.len() && (#[trigger] components[c]).contains(x)
    &&& forall|c: int, d: int, x: K|
        #![trigger components[c].contains(x), components[d].contains(x)]
        0 <= c < d < components.len() ==> !(components[c].contains(x) && components[d].contains(x))
}

/// Whether edges between the components lead forward only: a component comes before those that its
/// edges lead to.
pub open spec fn edges_lead_forward<K>(edges: Set<(K, K)>, components: Seq<Seq<K>>) -> bool {
    forall|c: int, d: int, x: K, y: K|
        #![trigger components[c].contains(x), components[d].contains(y)]
        0 <= c < components.len() && 0 <= d < components.len() && components[c].contains(x)
            && components[d].contains(y) && edges.contains((x, y)) ==> c <= d
}

/// The sequences that a list of lists holds.
pub open spec fn lists<K>(components: Seq<Vec<K>>) -> Seq<Seq<K>> {
    components.map_values(|component: Vec<K>| component@)
}

/// Whether the graph stays within the points.
pub open spec fn graph_within<K: Key>(graph: Map<K, OrderedSet<K>>, points: Set<K>) -> bool {
    &&& graph.dom().subset_of(points)
    &&& forall|x: K, y: K| #[trigger] graph_edges(graph).contains((x, y)) ==> points.contains(y)
}

/// A path into a point outside a set closed under the edges stays outside.
proof fn lemma_reach_avoiding<K>(edges: Set<(K, K)>, excluded: Set<K>, n: nat, x: K, y: K)
    requires
        closed_under(edges, excluded),
        !excluded.contains(y),
        reach_in(edges, n, x, y),
    ensures
        !excluded.contains(x),
        reach_in(avoiding(edges, excluded), n, x, y),
    decreases n,
{
    if n > 0 {
        let z = choose|z: K| #[trigger]
            edges.contains((x, z)) && reach_in(edges, (n - 1) as nat, z, y);
        lemma_reach_avoiding(edges, excluded, (n - 1) as nat, z, y);
        assert(avoiding(edges, excluded).contains((x, z)));
    }
}

/// The points that reach the last unvisited point of a finish order around the visited ones are
/// the points of its component.
proof fn lemma_last_unvisited<K>(
    edges: Set<(K, K)>,
    points: Set<K>,
    order: Seq<K>,
    k: int,
    visited: Set<K>,
    y: K,
)
    requires
        is_finish_order(edges, order),
        order.to_set() == points,
        forall|x: K, z: K| #[trigger] edges.contains((x, z)) ==> points.contains(x),
        0 <= k < order.len(),
        !visited.contains(order[k]),
        closed_under(reversed(edges), visited),
        forall|i: int| k < i < order.len() ==> visited.contains(#[trigger] order[i]),
    ensures
        reach(avoiding(reversed(edges), visited), order[k], y) <==> connected(edges, order[k], y),
        reach(avoiding(reversed(edges), visited), order[k], y) ==> points.contains(y)
            && !visited.contains(y),
{
    let root = order[k];
    let turned = reversed(edges);
    let around = avoiding(turned, visited);
    let low = choose|low: Seq<int>| finish_intervals(edges, order, low);
    if reach(around, root, y) {
        let inside = Set::new(
            |x: K| exists|i: int| low[k] <= i <= k && #[trigger] order[i] == x && !visited.contains(x),
        );
        assert(inside.contains(root)) by {
            assert(low[k] <= k && order[k] == root);
        }
        assert(closed_under(around, inside)) by {
            assert forall|x: K, w: K| #[trigger]
                around.contains((x, w)) && inside.contains(x) implies inside.contains(w) by {
                let at_x = choose|i: int|
                    low[k] <= i <= k && #[trigger] order[i] == x && !visited.contains(x);
                assert(edges.contains((w, x)));
                assert(order.to_set().contains(w));
                let at_w = order.index_of(w);
                assert(order[at_w] == w);
                assert(at_w <= k);
                assert(edges.contains((order[at_w], x)));
                let m = choose|m: int|
                    0 <= m < order.len() && #[trigger] order[m] == x && (m < at_w || low[m] <= at_w);
                assert(m == at_x);
                assert(low[k] <= low[m]);
                assert(low[k] <= at_w);
            }
        }
        lemma_reach_stays(around, inside, root, y);
        let at_y = choose|i: int|
            low[k] <= i <= k && #[trigger] order[i] == y && !visited.contains(y);
        assert(reach(edges, order[k], order[at_y]));
        assert(around.subset_of(turned));
        lemma_reach_monotone(around, turned, root, y);
        lemma_reach_reversed(edges, root, y);
        assert(order.to_set().contains(y));
    }
    if connected(edges, root, y) {
        lemma_reach_reversed(edges, root, y);
        assert(!visited.contains(y)) by {
            if visited.contains(y) {
                lemma_reach_reversed(edges, y, root);
                lemma_reach_stays(turned, visited, y, root);
            }
        }
        let n = choose|n: nat| #[trigger] reach_in(turned, n, root, y);
        lemma_reach_avoiding(turned, visited, n, root, y);
    }
}

/// Connection carries over from one point of a component to another.
pub proof fn lemma_connected_swap<K>(edges: Set<(K, K)>, root: K, x: K, y: K)
    requires
        connected(edges, root, x),
    ensures
        connected(edges, x, y) <==> connected(edges, root, y),
{
    if connected(edges, x, y) {
        lemma_reach_join(edges, root, x, y);
        lemma_reach_join(edges, y, x, root);
    }
    if connected(edges, root, y) {
        lemma_reach_join(edges, x, root, y);
        lemma_reach_join(edges, y, root, x);
    }
}

/// The strongly connected components of the graph over `nodes`, each before those that its edges
/// lead to.
pub fn find_scc<K: Key>(nodes: &[K], graph: &OrderedMap<K, OrderedSet<K>>) -> (components: Vec<
    Vec<K>,
>)
    requires
        graph_within(graph@, nodes@.to_set()),
    ensures
        are_components(graph_edges(graph@), nodes@.to_set(), lists(components@)),
        edges_lead_forward(graph_edges(graph@), lists(components@)),
{
    let ghost edges = graph_edges(graph@);
    let ghost points = nodes@.to_set();
    let mut visited: OrderedSet<K> = OrderedSet::new();
    let mut finish_stack: Vec<K> = Vec::new();
    let mut i: usize = 0;
    proof {
        assert(finish_intervals(edges, finish_stack@, Seq::<int>::empty()));
        assert(visited@ =~= finish_stack@.to_set());
        assert(closed_under(edges, points));
    }
    while i < nodes.len()
        invariant
            edges == graph_edges(graph@),
            points == nodes@.to_set(),
            closed_under(edges, points),
            i <= nodes@.len(),
            is_finish_order(edges, finish_stack@),
            visited@ == finish_stack@.to_set(),
            visited@.subset_of(points),
            forall|j: int| 0 <= j < i ==> visited@.contains(#[trigger] nodes@[j]),
        decreases nodes.len() - i,
    {
        let ghost seen = visited@;
        if !visited.contains(&nodes[i]) {
            dfs_finish_iterative(&nodes[i], graph, &mut visited, &mut finish_stack);
        }
        proof {
            if visited@ != seen {
                lemma_reach_self(edges, nodes@[i as int]);
                assert(visited@.contains(nodes@[i as int]));
                assert forall|x: K| visited@.contains(x) implies points.contains(x) by {
                    if !seen.contains(x) {
                        assert(reach(edges, nodes@[i as int], x));
                        lemma_reach_stays(edges, points, nodes@[i as int], x);
                    }
                }
                assert forall|j: int| 0 <= j < i implies visited@.contains(#[trigger] nodes@[j]) by {
                    assert(seen.contains(nodes@[j]));
                }
            } else {
                if !seen.contains(nodes@[i as int]) {
                    lemma_reach_self(edges, nodes@[i as int]);
                    assert(visited@.contains(nodes@[i as int]));
                }
            }
        }
        i = i + 1;
    }
    let ghost order = finish_stack@;
    proof {
        assert(order.to_set() =~= points) by {
            assert forall|x: K| points.contains(x) implies order.to_set().contains(x) by {
                let j = nodes@.index_of(x);
                assert(nodes@[j] == x);
            }
        }
    }
    let turned = reverse_graph(nodes, graph);
    let mut visited: OrderedSet<K> = OrderedSet::new();
    let mut components: Vec<Vec<K>> = Vec::new();
    assert(order.take(order.len() as int) =~= order);
    loop
        invariant
            edges == graph_edges(graph@),
            graph_edges(turned@) == reversed(edges),
            graph_within(graph@, points),
            is_finish_order(edges, order),
            order.to_set() == points,
            finish_stack@.len() <= order.len(),
            finish_stack@ == order.take(finish_stack@.len() as int),
            forall|j: int| finish_stack@.len() <= j < order.len() ==> visited@.contains(#[trigger] order[j]),
            closed_under(reversed(edges), visited@),
            forall|c: int|
                0 <= c < components@.len() ==> (#[trigger] components@[c])@.len() > 0
                    && components@[c]@.no_duplicates(),
            forall|c: int, x: K, y: K|
                #![trigger components@[c]@.contains(x), components@[c]@.contains(y)]
                0 <= c < components@.len() && components@[c]@.contains(x) ==> (
                components@[c]@.contains(y) <==> points.contains(y) && connected(edges, x, y)),
            forall|x: K| #[trigger]
                visited@.contains(x) ==> exists|c: int|
                    0 <= c < components@.len() && (#[trigger] components@[c])@.contains(x),
            forall|c: int, x: K|
                0 <= c < components@.len() && #[trigger] components@[c]@.contains(x) ==> visited@.contains(
                    x,
                ),
            forall|c: int, d: int, x: K|
                #![trigger components@[c]@.contains(x), components@[d]@.contains(x)]
                0 <= c < d < components@.len() ==> !(components@[c]@.contains(x)
                    && components@[d]@.contains(x)),
            forall|c: int, d: int, x: K, y: K|
                #![trigger components@[c]@.contains(x), components@[d]@.contains(y)]
                0 <= c < components@.len() && 0 <= d < components@.len()
                    && components@[c]@.contains(x) && components@[d]@.contains(y)
                    && edges.contains((x, y)) ==> c <= d,
        ensures
            finish_stack@.len() == 0,
        decreases finish_stack@.len(),
    {
        let ghost k = finish_stack@.len() - 1;
        match finish_stack.pop() {
            None => {
                break;
            },
            Some(node) => {
                assert(node == order[k]);
                assert(finish_stack@ =~= order.take(k));
                if visited.contains(&node) {
                    continue;
                }
                let ghost seen = visited@;
                let ghost components_before = components@;
                let component = collect_reverse_component(node, &turned, &mut visited);
                let ghost found = component@;
                components.push(component);
                proof {
                    let around = avoiding(reversed(edges), seen);
                    assert forall|x: K, z: K| #[trigger] edges.contains((x, z)) implies points.contains(x) by {
                        assert(graph@.dom().contains(x));
                    }
                    assert forall|x: K| found.contains(x) <==> #[trigger] connected(edges, node, x) by {
                        assert(found.contains(x) <==> reach(around, node, x));
                        lemma_last_unvisited(edges, points, order, k, seen, x);
                    }
                    assert forall|x: K| #[trigger] found.contains(x) implies points.contains(x)
                        && !seen.contains(x) by {
                        assert(found.contains(x) <==> reach(around, node, x));
                        lemma_last_unvisited(edges, points, order, k, seen, x);
                    }
                    lemma_reach_self(edges, node);
                    assert(connected(edges, node, node));
                    assert(found.contains(node));
                    let last = components_before.len() as int;
                    assert(components@[last]@ == found);
                    assert forall|c: int| 0 <= c < last implies components@[c] == components_before[c] by {}
                    assert(closed_under(reversed(edges), visited@)) by {
                        assert forall|x: K, y: K| #[trigger]
                            reversed(edges).contains((x, y)) && visited@.contains(x) implies visited@.contains(
                            y,
                        ) by {
                            if !seen.contains(x) && !seen.contains(y) {
                                assert(found.contains(x));
                                assert(around.contains((x, y)));
                                assert(reach(around, node, x));
                                lemma_reach_append(around, node, x, y);
                                assert(found.contains(y));
                            }
                        }
                    }
                    assert forall|c: int, x: K, y: K|
                        #![trigger components@[c]@.contains(x), components@[c]@.contains(y)]
                        0 <= c < components@.len() && components@[c]@.contains(x) implies (
                    components@[c]@.contains(y) <==> points.contains(y) && connected(edges, x, y)) by {
                        if c == last {
                            assert(connected(edges, node, x));
                            lemma_connected_swap(edges, node, x, y);
                        } else {
                            assert(components_before[c]@.contains(x));
                            assert(components_before[c]@.contains(y) <==> points.contains(y) && connected(
                                edges,
                                x,
                                y,
                            ));
                        }
                    }
                    assert forall|x: K| #[trigger] visited@.contains(x) implies exists|c: int|
                        0 <= c < components@.len() && (#[trigger] components@[c])@.contains(x) by {
                        if seen.contains(x) {
                            let c = choose|c: int|
                                0 <= c < components_before.len() && (
                                #[trigger] components_before[c])@.contains(x);
                            assert(components@[c]@.contains(x));
                        } else {
                            assert(components@[last]@.contains(x));
                        }
                    }
                    assert forall|c: int, x: K|
                        0 <= c < components@.len() && #[trigger] components@[c]@.contains(
                            x,
                        ) implies visited@.contains(x) by {
                        if c < last {
                            assert(components_before[c]@.contains(x));
                            assert(seen.contains(x));
                        }
                    }
                    assert forall|c: int, d: int, x: K|
                        #![trigger components@[c]@.contains(x), components@[d]@.contains(x)]
                        0 <= c < d < components@.len() implies !(components@[c]@.contains(x)
                        && components@[d]@.contains(x)) by {
                        if components@[c]@.contains(x) {
                            assert(components_before[c]@.contains(x));
                            if d == last {
                                assert(seen.contains(x));
                            } else {
                                assert(components@[d] == components_before[d]);
                            }
                        }
                    }
                    assert forall|c: int, d: int, x: K, y: K|
                        #![trigger components@[c]@.contains(x), components@[d]@.contains(y)]
                        0 <= c < components@.len() && 0 <= d < components@.len()
                            && components@[c]@.contains(x) && components@[d]@.contains(y)
                            && edges.contains((x, y)) implies c <= d by {
                        if d < last {
                            assert(components_before[d]@.contains(y));
                            assert(seen.contains(y));
                            assert(reversed(edges).contains((y, x)));
                            assert(seen.contains(x));
                            if c == last {
                                assert(found.contains(x));
                            } else {
                                assert(components_before[c]@.contains(x));
                            }
                        }
                    }
                }
            },
        }
    }
    proof {
        let result = lists(components@);
        assert forall|c: int| 0 <= c < result.len() implies #[trigger] result[c] == components@[c]@ by {}
        assert forall|x: K| #[trigger] points.contains(x) implies exists|c: int|
            0 <= c < result.len() && (#[trigger] result[c]).contains(x) by {
            assert(order.to_set().contains(x));
            let j = order.index_of(x);
            assert(visited@.contains(order[j]));
            let c = choose|c: int| 0 <= c < components@.len() && (#[trigger] components@[c])@.contains(x);
            assert(result[c].contains(x));
        }
        assert forall|c: int, d: int, x: K, y: K|
            #![trigger result[c].contains(x), result[d].contains(y)]
            0 <= c < result.len() && 0 <= d < result.len() && result[c].contains(x)
                && result[d].contains(y) && edges.contains((x, y)) implies c <= d by {
            assert(components@[c]@.contains(x) && components@[d]@.contains(y));
        }
    }
    components
}

} // verus!
