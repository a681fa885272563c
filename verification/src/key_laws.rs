//! The fixed key, and what it decides.

use vstd::prelude::*;

use crate::linearize::{causal_within, component_ready, is_linearization, leads};
use crate::ordered::Key;
use crate::ordering_laws::{lemma_across, precedes};
use crate::relation::{connected, reach, reach_in};
use crate::tie_break::{lemma_tie_total, tie_before, tie_order, tie_sorted};
use crate::topology::{edges_within, is_key_order, is_ready};
use crate::types::{lemma_byte_value_lexicographic, CertificateModel, Digest, PublicKey};

verus! {

/// Digests are ordered by the first byte in which they differ.
pub proof fn law_digest_order(a: Digest, b: Digest, i: int)
    requires
        0 <= i < 32,
        forall|k: int| 0 <= k < i ==> #[trigger] a.0@[k] == b.0@[k],
        a.0@[i] < b.0@[i],
    ensures
        a.ord() < b.ord(),
{
    assert(a.0@.take(i) =~= b.0@.take(i));
    lemma_byte_value_lexicographic(a.0@, b.0@, i);
}

/// Creators are ordered by the first byte in which they differ.
pub proof fn law_creator_order(a: PublicKey, b: PublicKey, i: int)
    requires
        0 <= i < 32,
        forall|k: int| 0 <= k < i ==> #[trigger] a.0@[k] == b.0@[k],
        a.0@[i] < b.0@[i],
    ensures
        a.ord() < b.ord(),
{
    assert(a.0@.take(i) =~= b.0@.take(i));
    lemma_byte_value_lexicographic(a.0@, b.0@, i);
}

/// The fixed key is lexicographic: the lower round comes first; in the same round the creator that
/// is smaller in the first byte in which the creators differ; and of the same creator the digest
/// that is smaller in the first byte in which the digests differ.
pub proof fn law_key_is_lexicographic(
    certificates: Map<Digest, CertificateModel>,
    a: Digest,
    b: Digest,
    i: int,
)
    requires
        0 <= i < 32,
    ensures
        certificates[a].round < certificates[b].round ==> tie_before(certificates, a, b)
            && !tie_before(certificates, b, a),
        certificates[a].round == certificates[b].round && (forall|k: int|
            0 <= k < i ==> #[trigger] certificates[a].origin.0@[k] == certificates[b].origin.0@[k])
            && certificates[a].origin.0@[i] < certificates[b].origin.0@[i] ==> tie_before(
            certificates,
            a,
            b,
        ) && !tie_before(certificates, b, a),
        certificates[a].round == certificates[b].round && certificates[a].origin
            == certificates[b].origin && (forall|k: int|
            0 <= k < i ==> #[trigger] a.0@[k] == b.0@[k]) && a.0@[i] < b.0@[i] ==> tie_before(
            certificates,
            a,
            b,
        ) && !tie_before(certificates, b, a),
        !tie_before(certificates, a, a),
{
    lemma_tie_total(certificates, a, b);
    let one = certificates[a].origin;
    let other = certificates[b].origin;
    if (forall|k: int| 0 <= k < i ==> #[trigger] one.0@[k] == other.0@[k]) && one.0@[i]
        < other.0@[i] {
        law_creator_order(one, other, i);
    }
    if (forall|k: int| 0 <= k < i ==> #[trigger] a.0@[k] == b.0@[k]) && a.0@[i] < b.0@[i] {
        law_digest_order(a, b, i);
    }
}

/// Vertices in the order of the fixed key never fall in their rounds, and within a round never fall
/// in their creators.
pub proof fn law_sorted_by_key(
    certificates: Map<Digest, CertificateModel>,
    sorted: Seq<Digest>,
    i: int,
    j: int,
)
    requires
        tie_sorted(certificates, sorted),
        0 <= i < j < sorted.len(),
    ensures
        certificates[sorted[i]].round <= certificates[sorted[j]].round,
        certificates[sorted[i]].round == certificates[sorted[j]].round
            ==> certificates[sorted[i]].origin.ord() <= certificates[sorted[j]].origin.ord(),
        certificates[sorted[i]].round == certificates[sorted[j]].round
            && certificates[sorted[i]].origin == certificates[sorted[j]].origin
            ==> sorted[i].ord() < sorted[j].ord(),
{
    assert(tie_before(certificates, sorted[i], sorted[j]));
}

/// Components hold every vertex of the slice, and nothing else; two vertices are in one component
/// just if paths lead from each to the other.
pub proof fn law_components(
    certificates: Map<Digest, CertificateModel>,
    nodes: Set<Digest>,
    edges: Set<(Digest, Digest)>,
    causal: Set<(Digest, Digest)>,
    components: Seq<Seq<Digest>>,
    order: Seq<Digest>,
    c: int,
    x: Digest,
    y: Digest,
)
    requires
        is_linearization(certificates, nodes, edges, causal, components, order),
        0 <= c < components.len(),
        components[c].contains(x),
    ensures
        nodes.contains(x),
        components[c].contains(y) <==> nodes.contains(y) && reach(edges, x, y) && reach(
            edges,
            y,
            x,
        ),
{
    assert(components[c].contains(x));
}

/// Of two components, the one that comes first has the lowest key, unless something that has not
/// come yet has to precede the other: it holds a vertex that comes before all vertices of the other
/// by round, then creator, then digest.
pub proof fn law_lowest_key_first(
    certificates: Map<Digest, CertificateModel>,
    nodes: Set<Digest>,
    edges: Set<(Digest, Digest)>,
    causal: Set<(Digest, Digest)>,
    components: Seq<Seq<Digest>>,
    order: Seq<Digest>,
    c: int,
    d: int,
) -> (first: Digest)
    requires
        is_linearization(certificates, nodes, edges, causal, components, order),
        0 <= c < d < components.len(),
        forall|x: Digest, y: Digest| #[trigger]
            edges.contains((x, y)) && components[d].contains(y) && !components[d].contains(x)
                ==> exists|b: int| 0 <= b < c && (#[trigger] components[b]).contains(x),
    ensures
        components[c].contains(first),
        forall|n: Digest| #[trigger]
            components[d].contains(n) ==> {
                ||| certificates[first].round < certificates[n].round
                ||| certificates[first].round == certificates[n].round
                    && certificates[first].origin.ord() < certificates[n].origin.ord()
                ||| certificates[first].round == certificates[n].round
                    && certificates[first].origin == certificates[n].origin && first.ord()
                    < n.ord()
            },
{
    assert(component_ready(edges, components, c, d));
    assert(leads(certificates, components[c], components[d]));
    let first = choose|m: Digest| #[trigger]
        components[c].contains(m) && forall|n: Digest| #[trigger]
            components[d].contains(n) ==> tie_before(certificates, m, n);
    first
}

/// Within a component, of two vertices the one that comes first has the lower key, unless an
/// ancestor of the other has not come yet.
pub proof fn law_lowest_key_first_within(
    certificates: Map<Digest, CertificateModel>,
    nodes: Set<Digest>,
    edges: Set<(Digest, Digest)>,
    causal: Set<(Digest, Digest)>,
    components: Seq<Seq<Digest>>,
    order: Seq<Digest>,
    c: int,
    i: int,
    j: int,
)
    requires
        is_linearization(certificates, nodes, edges, causal, components, order),
        0 <= c < components.len(),
        0 <= i < j < components[c].len(),
        forall|x: Digest|
            components[c].contains(x) && #[trigger] causal.contains((x, components[c][j]))
                ==> components[c].take(i).contains(x),
    ensures
        ({
            let one = components[c][i];
            let other = components[c][j];
            ||| certificates[one].round < certificates[other].round
            ||| certificates[one].round == certificates[other].round
                && certificates[one].origin.ord() < certificates[other].origin.ord()
            ||| certificates[one].round == certificates[other].round && certificates[one].origin
                == certificates[other].origin && one.ord() < other.ord()
        }),
{
    let part = components[c];
    let inner = edges_within(causal_within(edges, causal), part.to_set());
    let other = part[j];
    assert(is_key_order(inner, part.to_set(), tie_order(certificates), part));
    assert(part.contains(other));
    assert(!part.take(i).contains(other)) by {
        if part.take(i).contains(other) {
            let k = part.take(i).index_of(other);
            assert(part.take(i)[k] == other);
            assert(part[k] == part[j]);
        }
    }
    assert(is_ready(inner, part.to_set(), part.take(i).to_set(), other)) by {
        assert forall|y: Digest|
            part.to_set().contains(y) && #[trigger] inner.contains((y, other)) implies part.take(
            i,
        ).to_set().contains(y) by {
            assert(causal.contains((y, other)));
        }
    }
    assert(tie_order(certificates)(part[i], other));
}

proof fn lemma_no_paths(edges: Set<(Digest, Digest)>, x: Digest, y: Digest)
    requires
        forall|a: Digest, b: Digest| !#[trigger] edges.contains((a, b)),
        reach(edges, x, y),
    ensures
        x == y,
{
    let n = choose|n: nat| #[trigger] reach_in(edges, n, x, y);
    if n > 0 {
        let z = choose|z: Digest| #[trigger]
            edges.contains((x, z)) && reach_in(edges, (n - 1) as nat, z, y);
        assert(edges.contains((x, z)));
    }
}

/// A slice without edges is output by the fixed key: in ascending rounds, within a round in
/// ascending creators, and of one creator in ascending digests.
pub proof fn law_slice_without_edges(
    certificates: Map<Digest, CertificateModel>,
    nodes: Set<Digest>,
    edges: Set<(Digest, Digest)>,
    causal: Set<(Digest, Digest)>,
    components: Seq<Seq<Digest>>,
    order: Seq<Digest>,
    a: Digest,
    b: Digest,
)
    requires
        is_linearization(certificates, nodes, edges, causal, components, order),
        forall|x: Digest, y: Digest| !#[trigger] edges.contains((x, y)),
        nodes.contains(a),
        nodes.contains(b),
    ensures
        certificates[a].round < certificates[b].round ==> precedes(order, a, b),
        certificates[a].round == certificates[b].round && certificates[a].origin.ord()
            < certificates[b].origin.ord() ==> precedes(order, a, b),
        certificates[a].round == certificates[b].round && certificates[a].origin
            == certificates[b].origin && a.ord() < b.ord() ==> precedes(order, a, b),
{
    let c = choose|c: int| 0 <= c < components.len() && (#[trigger] components[c]).contains(a);
    let d = choose|d: int| 0 <= d < components.len() && (#[trigger] components[d]).contains(b);
    assert(components[c].contains(a) && components[d].contains(b));
    if a != b {
        if c == d {
            assert(connected(edges, a, b));
            lemma_no_paths(edges, a, b);
        } else if c < d {
            lemma_across(components, c, d, a, b);
        } else {
            let first = law_lowest_key_first(
                certificates,
                nodes,
                edges,
                causal,
                components,
                order,
                d,
                c,
            );
            assert(components[d].contains(first));
            law_components(certificates, nodes, edges, causal, components, order, d, b, first);
            lemma_no_paths(edges, b, first);
        }
    }
}

} // verus!
