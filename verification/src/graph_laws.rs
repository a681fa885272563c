//! Laws of graphs, paths and topological orders.

use vstd::prelude::*;

use crate::linearize::{causal_within, condensed, joined, numbers_components, ranks_by_key};
use crate::ordered::{increasing, Key, OrderedSet};
use crate::relation::{
    closed_under, lemma_reach_append, lemma_reach_edge, lemma_reach_join, lemma_reach_self,
    lemma_reach_stays, reach, reach_plus, reversed,
};
use crate::scc::{are_components, edges_lead_forward, graph_edges};
use crate::state::MrvExecutor;
use crate::topology::{edges_within, is_key_order, is_ready, rank_order};
use crate::types::{CertificateModel, Digest, Round};
use crate::visibility::parent_steps;

verus! {

/// A graph has just the edges that its lists of successors name.
pub proof fn law_adjacency<K: Key>(graph: Map<K, OrderedSet<K>>, x: K, y: K)
    ensures
        graph_edges(graph).contains((x, y)) <==> graph.contains_key(x) && graph[x]@.contains(y),
{
}

/// Every point reaches itself, an edge is a path, paths can be joined, and nothing else is a path:
/// a set of points that no edge leaves is left by no path.
pub proof fn law_paths<A>(edges: Set<(A, A)>, points: Set<A>, x: A, y: A, z: A)
    ensures
        reach(edges, x, x),
        edges.contains((x, y)) ==> reach(edges, x, y) && reach_plus(edges, x, y),
        reach(edges, x, y) && reach(edges, y, z) ==> reach(edges, x, z),
        reach(edges, x, y) && edges.contains((y, z)) ==> reach_plus(edges, x, z),
        reach_plus(edges, x, y) ==> exists|w: A| #[trigger]
            edges.contains((x, w)) && reach(edges, w, y),
        (forall|a: A, b: A| #[trigger]
            edges.contains((a, b)) && points.contains(a) ==> points.contains(b)) && points.contains(
            x,
        ) && reach(edges, x, y) ==> points.contains(y),
        reversed(edges).contains((x, y)) <==> edges.contains((y, x)),
{
    lemma_reach_self(edges, x);
    if edges.contains((x, y)) {
        lemma_reach_edge(edges, x, y);
    }
    if reach(edges, x, y) && reach(edges, y, z) {
        lemma_reach_join(edges, x, y, z);
    }
    if reach(edges, x, y) && edges.contains((y, z)) {
        lemma_reach_append(edges, x, y, z);
    }
    if (forall|a: A, b: A| #[trigger]
        edges.contains((a, b)) && points.contains(a) ==> points.contains(b)) && points.contains(x)
        && reach(edges, x, y) {
        assert(closed_under(edges, points));
        lemma_reach_stays(edges, points, x, y);
    }
}

/// Components hold every point once, and two points together just if each reaches the other.
pub proof fn law_strong_components<K>(
    edges: Set<(K, K)>,
    points: Set<K>,
    components: Seq<Seq<K>>,
    c: int,
    d: int,
    x: K,
    y: K,
)
    requires
        are_components(edges, points, components),
        0 <= c < components.len(),
        0 <= d < components.len(),
        components[c].contains(x),
        components[d].contains(y),
    ensures
        points.contains(x),
        c == d <==> reach(edges, x, y) && reach(edges, y, x),
        x == y ==> c == d,
        components[c].no_duplicates(),
{
    assert(components[c].contains(x) && components[d].contains(y));
    if c != d && reach(edges, x, y) && reach(edges, y, x) {
        assert(components[d].contains(x) <==> points.contains(x) && reach(edges, y, x) && reach(
            edges,
            x,
            y,
        ));
        assert(components[c].contains(x));
    }
}

/// Every point is in some component.
pub proof fn law_all_in_components<K>(
    edges: Set<(K, K)>,
    points: Set<K>,
    components: Seq<Seq<K>>,
    x: K,
) -> (c: int)
    requires
        are_components(edges, points, components),
        points.contains(x),
    ensures
        0 <= c < components.len(),
        components[c].contains(x),
{
    choose|c: int| 0 <= c < components.len() && (#[trigger] components[c]).contains(x)
}

/// A topological order lists every point once and every point after those with an edge to it; and
/// of two points the one that comes first has the lower rank, unless something else has to come
/// before the other.
pub proof fn law_topological_order<K: Key>(
    edges: Set<(K, K)>,
    points: Set<K>,
    rank: Map<K, usize>,
    order: Seq<K>,
    i: int,
    j: int,
)
    requires
        is_key_order(edges, points, rank_order(rank), order),
        0 <= i < order.len(),
        0 <= j < order.len(),
        i != j,
    ensures
        order[i] != order[j],
        points.contains(order[i]),
        edges.contains((order[i], order[j])) ==> i < j,
        i < j && (forall|y: K|
            points.contains(y) && #[trigger] edges.contains((y, order[j])) ==> order.take(
                i,
            ).contains(y)) ==> rank[order[i]] < rank[order[j]] || rank[order[i]] == rank[order[j]]
            && order[i].ord() < order[j].ord(),
{
    assert(order.to_set().contains(order[i]));
    assert(is_ready(edges, points, order.take(j).to_set(), order[j]));
    if edges.contains((order[i], order[j])) {
        assert(order.take(j).to_set().contains(order[i]));
        let k = order.take(j).index_of(order[i]);
        assert(order.take(j)[k] == order[i]);
        assert(order[k] == order[i]);
    }
    if i < j && (forall|y: K|
        points.contains(y) && #[trigger] edges.contains((y, order[j])) ==> order.take(i).contains(
            y,
        )) {
        let done = order.take(i);
        assert(order.to_set().contains(order[j]));
        assert(!done.contains(order[j])) by {
            if done.contains(order[j]) {
                let k = done.index_of(order[j]);
                assert(done[k] == order[j]);
                assert(order[k] == order[j]);
            }
        }
        assert forall|y: K|
            points.contains(y) && #[trigger] edges.contains((y, order[j])) implies done.to_set().contains(
        y) by {
            assert(done.contains(y));
        }
        assert(is_ready(edges, points, done.to_set(), order[j]));
        assert(rank_order(rank)(order[i], order[j]));
    }
}

/// The edges that start among the points.
pub proof fn law_edges_within<K>(edges: Set<(K, K)>, points: Set<K>, x: K, y: K)
    ensures
        edges_within(edges, points).contains((x, y)) <==> edges.contains((x, y)) && points.contains(
            x,
        ),
{
}

/// The condensed graph has an edge between the numbers of two components just if they differ and
/// some edge leads from a vertex of the one to a vertex of the other.
pub proof fn law_condensed(
    edges: Set<(Digest, Digest)>,
    number: Map<Digest, usize>,
    x: Digest,
    y: Digest,
    m: usize,
    n: usize,
)
    ensures
        edges.contains((x, y)) && number[x] != number[y] ==> condensed(edges, number).contains(
            (number[x], number[y]),
        ),
        condensed(edges, number).contains((m, n)) ==> m != n && exists|a: Digest, b: Digest| #[trigger]
            edges.contains((a, b)) && number[a] == m && number[b] == n,
{
}

/// Vertices have the same number just if each reaches the other.
pub proof fn law_numbers(
    nodes: Set<Digest>,
    edges: Set<(Digest, Digest)>,
    number: Map<Digest, usize>,
    count: nat,
    x: Digest,
    y: Digest,
)
    requires
        numbers_components(nodes, edges, number, count),
        nodes.contains(x),
        nodes.contains(y),
    ensures
        number.contains_key(x),
        number[x] < count,
        number[x] == number[y] <==> reach(edges, x, y) && reach(edges, y, x),
{
}

/// The lower rank goes to the lower round, then to the lower creator, then to the lower digest.
pub proof fn law_ranks(
    certificates: Map<Digest, CertificateModel>,
    nodes: Set<Digest>,
    rank: Map<Digest, usize>,
    a: Digest,
    b: Digest,
)
    requires
        ranks_by_key(certificates, nodes, rank),
        nodes.contains(a),
        nodes.contains(b),
    ensures
        certificates[a].round < certificates[b].round ==> rank[a] < rank[b],
        certificates[a].round == certificates[b].round && certificates[a].origin.ord()
            < certificates[b].origin.ord() ==> rank[a] < rank[b],
        certificates[a].round == certificates[b].round && certificates[a].origin
            == certificates[b].origin && a.ord() < b.ord() ==> rank[a] < rank[b],
        rank[a] == rank[b] ==> a == b,
{
    assert(rank[a] < rank[b] <==> crate::tie_break::tie_before(certificates, a, b));
}

/// A walk goes on from a stored certificate of a round above the given one, to its parents.
pub proof fn law_walk_steps(
    certificates: Map<Digest, CertificateModel>,
    above: Round,
    x: Digest,
    y: Digest,
)
    ensures
        parent_steps(certificates, above).contains((x, y)) <==> certificates.contains_key(x)
            && certificates[x].round > above && certificates[x].parents.contains(y),
{
}

/// Visibility is walked down to the lowest round of an active vertex, or, without one, no further
/// than the certificate itself.
pub proof fn law_walk_floor(executor: MrvExecutor, round: Round)
    ensures
        executor.active_floor_round is Some ==> executor.walk_floor(round)
            == executor.active_floor_round->0,
        executor.active_floor_round is None ==> executor.walk_floor(round) == round,
{
}

/// Components come in the order of the graph: what one reaches is not in an earlier one.
pub proof fn law_components_lead_forward<K>(
    edges: Set<(K, K)>,
    points: Set<K>,
    components: Seq<Seq<K>>,
    c: int,
    d: int,
    x: K,
    y: K,
)
    requires
        are_components(edges, points, components),
        edges_lead_forward(edges, components),
        0 <= d < c < components.len(),
        components[c].contains(x),
        components[d].contains(y),
    ensures
        !edges.contains((x, y)),
{
    assert(components[c].contains(x) && components[d].contains(y));
}

/// Lists are joined one after the other, each as it stands.
pub proof fn law_joined<K>(parts: Seq<Seq<K>>, part: Seq<K>)
    ensures
        joined(Seq::<Seq<K>>::empty()) == Seq::<K>::empty(),
        joined(parts.push(part)) == joined(parts) + part,
{
    assert(parts.push(part).drop_last() =~= parts);
}

/// Numbers have their natural order.
pub proof fn law_number_order(a: u64, b: u64, m: usize, n: usize)
    ensures
        a.ord() < b.ord() <==> a < b,
        m.ord() < n.ord() <==> m < n,
{
}

/// Increasing keys stand in their order, and none stands twice.
pub proof fn law_increasing<K: Key>(keys: Seq<K>, i: int, j: int)
    requires
        increasing(keys),
        0 <= i < keys.len(),
        0 <= j < keys.len(),
    ensures
        i < j <==> keys[i].ord() < keys[j].ord(),
        i == j <==> keys[i] == keys[j],
{
    if i < j {
        assert(keys[i].ord() < keys[j].ord());
    }
    if j < i {
        assert(keys[j].ord() < keys[i].ord());
    }
}

/// Causal edges within a component are those between vertices that reach each other.
pub proof fn law_causal_within<K>(edges: Set<(K, K)>, causal: Set<(K, K)>, x: K, y: K)
    ensures
        causal_within(edges, causal).contains((x, y)) <==> causal.contains((x, y)) && reach(
            edges,
            x,
            y,
        ) && reach(edges, y, x),
{
}

} // verus!
