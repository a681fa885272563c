//! Reachability and acyclicity of finite relations.

use vstd::prelude::*;

verus! {

/// Whether `y` is reached from `x` by exactly `steps` edges.
pub open spec fn reach_in<A>(edges: Set<(A, A)>, steps: nat, x: A, y: A) -> bool
    decreases steps,
{
    if steps == 0 {
        x == y
    } else {
        exists|z: A| #[trigger]
            edges.contains((x, z)) && reach_in(edges, (steps - 1) as nat, z, y)
    }
}

/// Whether a path leads from `x` to `y`; every point reaches itself.
pub open spec fn reach<A>(edges: Set<(A, A)>, x: A, y: A) -> bool {
    exists|steps: nat| #[trigger] reach_in(edges, steps, x, y)
}

/// Whether a path of at least one edge leads from `x` to `y`.
pub open spec fn reach_plus<A>(edges: Set<(A, A)>, x: A, y: A) -> bool {
    exists|z: A| #[trigger] edges.contains((x, z)) && reach(edges, z, y)
}

/// Whether the points reach each other.
pub open spec fn connected<A>(edges: Set<(A, A)>, x: A, y: A) -> bool {
    reach(edges, x, y) && reach(edges, y, x)
}

/// Whether no path of at least one edge leads back to its start.
pub open spec fn acyclic<A>(edges: Set<(A, A)>) -> bool {
    forall|x: A| !#[trigger] reach_plus(edges, x, x)
}

/// The edges turned around.
pub open spec fn reversed<A>(edges: Set<(A, A)>) -> Set<(A, A)> {
    Set::new(|e: (A, A)| edges.contains((e.1, e.0)))
}

/// The edges whose two ends avoid `excluded`.
pub open spec fn avoiding<A>(edges: Set<(A, A)>, excluded: Set<A>) -> Set<(A, A)> {
    Set::new(
        |e: (A, A)| edges.contains(e) && !excluded.contains(e.0) && !excluded.contains(e.1),
    )
}

/// Whether every edge that starts in `points` also ends there.
pub open spec fn closed_under<A>(edges: Set<(A, A)>, points: Set<A>) -> bool {
    forall|x: A, y: A| #[trigger] edges.contains((x, y)) && points.contains(x) ==> points.contains(y)
}

/// Every point reaches itself.
pub proof fn lemma_reach_self<A>(edges: Set<(A, A)>, x: A)
    ensures
        reach(edges, x, x),
{
    assert(reach_in(edges, 0, x, x));
}

/// An edge is a path.
pub proof fn lemma_reach_edge<A>(edges: Set<(A, A)>, x: A, y: A)
    requires
        edges.contains((x, y)),
    ensures
        reach(edges, x, y),
        reach_plus(edges, x, y),
{
    assert(reach_in(edges, 0, y, y));
    assert(reach_in(edges, 1, x, y));
}

proof fn lemma_reach_in_join<A>(edges: Set<(A, A)>, m: nat, n: nat, x: A, y: A, z: A)
    requires
        reach_in(edges, m, x, y),
        reach_in(edges, n, y, z),
    ensures
        reach_in(edges, m + n, x, z),
    decreases m,
{
    if m > 0 {
        let w = choose|w: A| #[trigger]
            edges.contains((x, w)) && reach_in(edges, (m - 1) as nat, w, y);
        lemma_reach_in_join(edges, (m - 1) as nat, n, w, y, z);
        assert(((m - 1) as nat + n) as nat == (m + n - 1) as nat);
    }
}

/// Paths can be joined.
pub proof fn lemma_reach_join<A>(edges: Set<(A, A)>, x: A, y: A, z: A)
    requires
        reach(edges, x, y),
        reach(edges, y, z),
    ensures
        reach(edges, x, z),
{
    let m = choose|m: nat| #[trigger] reach_in(edges, m, x, y);
    let n = choose|n: nat| #[trigger] reach_in(edges, n, y, z);
    lemma_reach_in_join(edges, m, n, x, y, z);
}

/// A path can be prolonged by an edge.
pub proof fn lemma_reach_append<A>(edges: Set<(A, A)>, x: A, y: A, z: A)
    requires
        reach(edges, x, y),
        edges.contains((y, z)),
    ensures
        reach(edges, x, z),
        reach_plus(edges, x, z),
{
    lemma_reach_edge(edges, y, z);
    lemma_reach_join(edges, x, y, z);
    let n = choose|n: nat| #[trigger] reach_in(edges, n, x, y);
    if n > 0 {
        let w = choose|w: A| #[trigger]
            edges.contains((x, w)) && reach_in(edges, (n - 1) as nat, w, y);
        assert(reach(edges, w, y));
        lemma_reach_join(edges, w, y, z);
    }
}

/// A path of at least one edge is a path.
pub proof fn lemma_reach_plus_is_reach<A>(edges: Set<(A, A)>, x: A, y: A)
    requires
        reach_plus(edges, x, y),
    ensures
        reach(edges, x, y),
{
    let z = choose|z: A| #[trigger] edges.contains((x, z)) && reach(edges, z, y);
    lemma_reach_edge(edges, x, z);
    lemma_reach_join(edges, x, z, y);
}

/// A path between different points has at least one edge.
pub proof fn lemma_reach_is_reach_plus<A>(edges: Set<(A, A)>, x: A, y: A)
    requires
        reach(edges, x, y),
        x != y,
    ensures
        reach_plus(edges, x, y),
{
    let n = choose|n: nat| #[trigger] reach_in(edges, n, x, y);
    let w = choose|w: A| #[trigger] edges.contains((x, w)) && reach_in(edges, (n - 1) as nat, w, y);
    assert(reach(edges, w, y));
}

/// Paths of at least one edge can be joined.
pub proof fn lemma_reach_plus_join<A>(edges: Set<(A, A)>, x: A, y: A, z: A)
    requires
        reach_plus(edges, x, y),
        reach_plus(edges, y, z),
    ensures
        reach_plus(edges, x, z),
{
    let w = choose|w: A| #[trigger] edges.contains((x, w)) && reach(edges, w, y);
    lemma_reach_plus_is_reach(edges, y, z);
    lemma_reach_join(edges, w, y, z);
}

/// A point set that keeps every edge inside keeps every path inside.
pub proof fn lemma_reach_stays<A>(edges: Set<(A, A)>, points: Set<A>, x: A, y: A)
    requires
        closed_under(edges, points),
        points.contains(x),
        reach(edges, x, y),
    ensures
        points.contains(y),
{
    let n = choose|n: nat| #[trigger] reach_in(edges, n, x, y);
    lemma_reach_in_stays(edges, points, n, x, y);
}

proof fn lemma_reach_in_stays<A>(edges: Set<(A, A)>, points: Set<A>, n: nat, x: A, y: A)
    requires
        closed_under(edges, points),
        points.contains(x),
        reach_in(edges, n, x, y),
    ensures
        points.contains(y),
    decreases n,
{
    if n > 0 {
        let w = choose|w: A| #[trigger]
            edges.contains((x, w)) && reach_in(edges, (n - 1) as nat, w, y);
        lemma_reach_in_stays(edges, points, (n - 1) as nat, w, y);
    }
}

/// More edges, more paths.
pub proof fn lemma_reach_monotone<A>(few: Set<(A, A)>, many: Set<(A, A)>, x: A, y: A)
    requires
        few.subset_of(many),
        reach(few, x, y),
    ensures
        reach(many, x, y),
{
    let n = choose|n: nat| #[trigger] reach_in(few, n, x, y);
    lemma_reach_in_monotone(few, many, n, x, y);
}

proof fn lemma_reach_in_monotone<A>(few: Set<(A, A)>, many: Set<(A, A)>, n: nat, x: A, y: A)
    requires
        few.subset_of(many),
        reach_in(few, n, x, y),
    ensures
        reach_in(many, n, x, y),
    decreases n,
{
    if n > 0 {
        let w = choose|w: A| #[trigger] few.contains((x, w)) && reach_in(few, (n - 1) as nat, w, y);
        lemma_reach_in_monotone(few, many, (n - 1) as nat, w, y);
        assert(many.contains((x, w)));
    }
}

/// Paths of the turned edges are the paths backwards.
pub proof fn lemma_reach_reversed<A>(edges: Set<(A, A)>, x: A, y: A)
    ensures
        reach(reversed(edges), x, y) == reach(edges, y, x),
{
    if reach(reversed(edges), x, y) {
        let n = choose|n: nat| #[trigger] reach_in(reversed(edges), n, x, y);
        lemma_reach_in_reversed(edges, n, x, y);
    }
    if reach(edges, y, x) {
        assert(reversed(reversed(edges)) =~= edges);
        let n = choose|n: nat| #[trigger] reach_in(edges, n, y, x);
        lemma_reach_in_reversed(reversed(edges), n, y, x);
    }
}

proof fn lemma_reach_in_reversed<A>(edges: Set<(A, A)>, n: nat, x: A, y: A)
    requires
        reach_in(reversed(edges), n, x, y),
    ensures
        reach(edges, y, x),
    decreases n,
{
    if n > 0 {
        let w = choose|w: A| #[trigger]
            reversed(edges).contains((x, w)) && reach_in(reversed(edges), (n - 1) as nat, w, y);
        lemma_reach_in_reversed(edges, (n - 1) as nat, w, y);
        assert(edges.contains((w, x)));
        lemma_reach_append(edges, y, w, x);
    } else {
        lemma_reach_self(edges, x);
    }
}

/// The points of `points` from which a path of at least one edge leads to `x`.
pub open spec fn before<A>(edges: Set<(A, A)>, points: Set<A>, x: A) -> Set<A> {
    points.filter(|y: A| reach_plus(edges, y, x))
}

/// A finite set with a point in it has a point that no edge enters from the set, if the relation is
/// acyclic.
pub proof fn lemma_acyclic_source<A>(edges: Set<(A, A)>, points: Set<A>, x: A) -> (source: A)
    requires
        acyclic(edges),
        points.finite(),
        points.contains(x),
    ensures
        points.contains(source),
        forall|y: A| points.contains(y) ==> !#[trigger] edges.contains((y, source)),
    decreases before(edges, points, x).len(),
{
    broadcast use vstd::set_lib::group_set_lib_default;

    if exists|y: A| points.contains(y) && #[trigger] edges.contains((y, x)) {
        let y = choose|y: A| points.contains(y) && #[trigger] edges.contains((y, x));
        lemma_reach_edge(edges, y, x);
        assert(before(edges, points, x).contains(y));
        assert(!before(edges, points, y).contains(y));
        assert forall|z: A| before(edges, points, y).contains(z) implies before(
            edges,
            points,
            x,
        ).contains(z) by {
            lemma_reach_plus_join(edges, z, y, x);
        }
        assert(before(edges, points, x).finite());
        assert(before(edges, points, y).subset_of(before(edges, points, x).remove(y)));
        vstd::set_lib::lemma_len_subset(before(edges, points, y), before(edges, points, x).remove(y));
        lemma_acyclic_source(edges, points, y)
    } else {
        x
    }
}

} // verus!
