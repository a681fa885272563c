//! Laws of the order within a slice.

use vstd::prelude::*;

use crate::counting::{lemma_count_all, lemma_count_split};
use crate::determinism::lemma_by_key_exists;
use crate::linearize::{
    causal_within, is_linearization, joined, lemma_components_joined,
};
use crate::metrics::inverted;
use crate::model::ExecutorModel;
use crate::ordering::{
    all_pairs, by_key, edge_and, incomparable_and, lemma_pair_count, ordered_by_graph,
    slice_metrics, Snapshot,
};
use crate::relation::{
    closed_under, connected, lemma_reach_edge, lemma_reach_join, lemma_reach_monotone,
    lemma_reach_self, lemma_reach_stays, reach, reach_in,
};
use crate::state::{Evidence, OrderingMetrics};
use crate::tie_break::lemma_tie_sorted_distinct;
use crate::topology::{edges_within, is_key_order, is_ready};
use crate::types::{CertificateModel, Digest, PublicKey, Round};
use crate::visibility::{
    causally_before, coexistence, crosses, eligible, later, makes_visible, parent_steps, seen_at,
    with_seen, PairVerdict,
};

verus! {

/// Whether `a` stands somewhere before `b`.
pub open spec fn precedes(order: Seq<Digest>, a: Digest, b: Digest) -> bool {
    exists|i: int, j: int|
        0 <= i < j < order.len() && #[trigger] order[i] == a && #[trigger] order[j] == b
}

/// Where a part starts when the parts are joined.
spec fn offset(parts: Seq<Seq<Digest>>, c: int) -> int {
    joined(parts.take(c)).len() as int
}

proof fn lemma_joined_at(parts: Seq<Seq<Digest>>, c: int, k: int)
    requires
        0 <= c < parts.len(),
        0 <= k < parts[c].len(),
    ensures
        offset(parts, c) + k < joined(parts).len(),
        joined(parts)[offset(parts, c) + k] == parts[c][k],
    decreases parts.len(),
{
    let init = parts.drop_last();
    if c == parts.len() - 1 {
        assert(parts.take(c) =~= init);
    } else {
        assert(init.take(c) =~= parts.take(c));
        lemma_joined_at(init, c, k);
    }
}

proof fn lemma_offset_grows(parts: Seq<Seq<Digest>>, c: int, d: int)
    requires
        0 <= c < d < parts.len(),
    ensures
        offset(parts, c) + parts[c].len() <= offset(parts, d),
    decreases d,
{
    let shorter = parts.take(d);
    assert(shorter.drop_last() =~= parts.take(d - 1));
    if c < d - 1 {
        lemma_offset_grows(parts, c, d - 1);
    } else {
        assert(shorter.last() == parts[c]);
    }
}

pub proof fn lemma_across(parts: Seq<Seq<Digest>>, c: int, d: int, x: Digest, y: Digest)
    requires
        0 <= c < d < parts.len(),
        parts[c].contains(x),
        parts[d].contains(y),
    ensures
        precedes(joined(parts), x, y),
{
    let i = parts[c].index_of(x);
    let j = parts[d].index_of(y);
    lemma_joined_at(parts, c, i);
    lemma_joined_at(parts, d, j);
    lemma_offset_grows(parts, c, d);
    assert(joined(parts)[offset(parts, c) + i] == x);
    assert(joined(parts)[offset(parts, d) + j] == y);
}

pub proof fn lemma_within(parts: Seq<Seq<Digest>>, c: int, i: int, j: int)
    requires
        0 <= c < parts.len(),
        0 <= i < j < parts[c].len(),
    ensures
        precedes(joined(parts), parts[c][i], parts[c][j]),
{
    lemma_joined_at(parts, c, i);
    lemma_joined_at(parts, c, j);
}

/// The order of a slice holds every vertex of the slice once, and nothing else: membership stays
/// as it was committed.
pub proof fn law_order_is_permutation(
    certificates: Map<Digest, CertificateModel>,
    base: Seq<Digest>,
    edges: Set<(Digest, Digest)>,
    causal: Set<(Digest, Digest)>,
    components: Seq<Seq<Digest>>,
    order: Seq<Digest>,
)
    requires
        base.no_duplicates(),
        is_linearization(certificates, base.to_set(), edges, causal, components, order),
    ensures
        order.no_duplicates(),
        order.to_set() == base.to_set(),
        order.len() == base.len(),
        order.to_multiset() == base.to_multiset(),
{
    lemma_components_joined(edges, base.to_set(), components);
    order.unique_seq_to_set();
    base.unique_seq_to_set();
    base.lemma_multiset_has_no_duplicates();
    order.lemma_multiset_has_no_duplicates();
    assert(order.to_multiset() =~= base.to_multiset()) by {
        assert forall|d: Digest| order.to_multiset().count(d) == base.to_multiset().count(d) by {
            vstd::seq_lib::to_multiset_contains(order, d);
            vstd::seq_lib::to_multiset_contains(base, d);
            assert(order.to_set().contains(d) <==> base.to_set().contains(d));
        }
    }
}

/// Along the edges of the graph, components never go back.
proof fn lemma_reach_forward(
    certificates: Map<Digest, CertificateModel>,
    nodes: Set<Digest>,
    edges: Set<(Digest, Digest)>,
    causal: Set<(Digest, Digest)>,
    components: Seq<Seq<Digest>>,
    order: Seq<Digest>,
    c: int,
    d: int,
    x: Digest,
    y: Digest,
)
    requires
        forall|a: Digest, b: Digest| #[trigger]
            edges.contains((a, b)) ==> nodes.contains(a) && nodes.contains(b),
        is_linearization(certificates, nodes, edges, causal, components, order),
        0 <= c < components.len(),
        0 <= d < components.len(),
        components[c].contains(x),
        components[d].contains(y),
        reach(edges, x, y),
    ensures
        c <= d,
{
    let ahead = Set::new(
        |z: Digest| exists|e: int| c <= e < components.len() && (#[trigger] components[e]).contains(z),
    );
    assert(closed_under(edges, ahead)) by {
        assert forall|u: Digest, v: Digest| #[trigger]
            edges.contains((u, v)) && ahead.contains(u) implies ahead.contains(v) by {
            let e = choose|e: int| c <= e < components.len() && (#[trigger] components[e]).contains(u);
            assert(nodes.contains(v));
            let f = choose|f: int| 0 <= f < components.len() && (#[trigger] components[f]).contains(v);
            assert(components[e].contains(u) && components[f].contains(v));
            assert(e <= f);
        }
    }
    assert(ahead.contains(x));
    lemma_reach_stays(edges, ahead, x, y);
    let e = choose|e: int| c <= e < components.len() && (#[trigger] components[e]).contains(y);
    assert(components[e].contains(y) && components[d].contains(y));
}

/// Where a path leads from one vertex to another and none leads back, the first precedes the
/// second. In particular every visibility edge between different components is respected.
pub proof fn law_graph_order_is_respected(
    certificates: Map<Digest, CertificateModel>,
    nodes: Set<Digest>,
    edges: Set<(Digest, Digest)>,
    causal: Set<(Digest, Digest)>,
    components: Seq<Seq<Digest>>,
    order: Seq<Digest>,
    a: Digest,
    b: Digest,
)
    requires
        forall|x: Digest, y: Digest| #[trigger]
            edges.contains((x, y)) ==> nodes.contains(x) && nodes.contains(y),
        is_linearization(certificates, nodes, edges, causal, components, order),
        nodes.contains(a),
        nodes.contains(b),
        reach(edges, a, b),
        !reach(edges, b, a),
    ensures
        precedes(order, a, b),
{
    let c = choose|c: int| 0 <= c < components.len() && (#[trigger] components[c]).contains(a);
    let d = choose|d: int| 0 <= d < components.len() && (#[trigger] components[d]).contains(b);
    assert(components[c].contains(a) && components[d].contains(b));
    lemma_reach_forward(
        certificates,
        nodes,
        edges,
        causal,
        components,
        order,
        c,
        d,
        a,
        b,
    );
    if c == d {
        assert(components[c].contains(a) && components[c].contains(b));
        assert(connected(edges, a, b));
    }
    lemma_across(components, c, d, a, b);
}

/// Causal edges are hard: an ancestor precedes its descendants, also within a component.
pub proof fn law_causal_order_is_respected(
    s: Snapshot,
    nodes: Set<Digest>,
    components: Seq<Seq<Digest>>,
    order: Seq<Digest>,
    a: Digest,
    b: Digest,
)
    requires
        is_linearization(
            s.certificates,
            nodes,
            s.edges(nodes),
            s.causal_edges(nodes),
            components,
            order,
        ),
        nodes.contains(a),
        nodes.contains(b),
        s.causal(a, b),
    ensures
        precedes(order, a, b),
{
    let edges = s.edges(nodes);
    let causal = s.causal_edges(nodes);
    assert(edges.contains((a, b)) && causal.contains((a, b)));
    lemma_reach_edge(edges, a, b);
    if !reach(edges, b, a) {
        law_graph_order_is_respected(
            s.certificates,
            nodes,
            edges,
            causal,
            components,
            order,
            a,
            b,
        );
    } else {
        let c = choose|c: int| 0 <= c < components.len() && (#[trigger] components[c]).contains(a);
        let part = components[c];
        assert(part.contains(a));
        assert(part.contains(b) <==> nodes.contains(b) && connected(edges, a, b)) by {
            assert(components[c].contains(a));
        }
        let inner = edges_within(causal_within(edges, causal), part.to_set());
        assert(causal_within(edges, causal).contains((a, b)));
        assert(part.to_set().contains(a));
        assert(inner.contains((a, b)));
        assert(is_key_order(
            inner,
            part.to_set(),
            crate::tie_break::tie_order(s.certificates),
            part,
        ));
        let j = part.index_of(b);
        assert(part[j] == b);
        assert(is_ready(inner, part.to_set(), part.take(j).to_set(), part[j]));
        assert(part.take(j).to_set().contains(a));
        let i = part.take(j).index_of(a);
        assert(part.take(j)[i] == a);
        assert(part[i] == a);
        lemma_within(components, c, i, j);
    }
}

/// The order of a slice does not depend on the order in which its vertices were committed.
pub proof fn law_order_ignores_commit_order(s: Snapshot, one: Seq<Digest>, other: Seq<Digest>)
    requires
        one.to_multiset() == other.to_multiset(),
    ensures
        s.components(one.to_set()) == s.components(other.to_set()),
        s.order(one.to_set()) == s.order(other.to_set()),
{
    assert forall|d: Digest| one.to_set().contains(d) <==> other.to_set().contains(d) by {
        vstd::seq_lib::to_multiset_contains(one, d);
        vstd::seq_lib::to_multiset_contains(other, d);
    }
    assert(one.to_set() =~= other.to_set());
}

/// Visibility puts `a` before `b` just if the two are causally unrelated, both are eligible, `a`
/// crosses and `b` does not. An ineligible pair, a pair without a crossing and a pair with
/// crossings both ways get no edge.
pub proof fn law_visibility_edge(s: Snapshot, a: Digest, b: Digest)
    ensures
        s.visible_first(a, b) <==> a != b && !s.comparable(a, b) && s.is_eligible(a)
            && s.is_eligible(b) && crosses(s.evidence, s.window, s.theta, a, b) && !crosses(
            s.evidence,
            s.window,
            s.theta,
            b,
            a,
        ),
        !(s.visible_first(a, b) && s.visible_first(b, a)),
        s.comparable(a, b) ==> !s.visible_first(a, b) && !s.visible_first(b, a),
{
    crate::ordering::lemma_verdict_flips(s, a, b);
}

/// Causal precedence is a strict order, and goes up in rounds.
pub proof fn law_causal_is_strict_order(s: Snapshot, a: Digest, b: Digest, c: Digest)
    ensures
        !s.causal(a, a),
        s.causal(a, b) ==> s.certificates[a].round < s.certificates[b].round,
        !(s.causal(a, b) && s.causal(b, a)),
        s.causal(a, b) && s.causal(b, c) ==> s.causal(a, c),
{
    if s.causal(a, b) && s.causal(b, c) {
        let low = parent_steps(s.certificates, s.certificates[a].round);
        let high = parent_steps(s.certificates, s.certificates[b].round);
        assert(high.subset_of(low));
        lemma_reach_monotone(high, low, c, b);
        lemma_reach_join(low, c, b, a);
    }
}

/// All steps from stored certificates to their parents.
pub open spec fn ancestry_steps(certificates: Map<Digest, CertificateModel>) -> Set<
    (Digest, Digest),
> {
    Set::new(
        |e: (Digest, Digest)|
            certificates.contains_key(e.0) && certificates[e.0].parents.contains(e.1),
    )
}

/// Whether parents are of lower rounds than their children, as far as both are stored.
pub open spec fn parents_are_older(certificates: Map<Digest, CertificateModel>) -> bool {
    forall|d: Digest, p: Digest|
        certificates.contains_key(d) && certificates.contains_key(p)
            && #[trigger] certificates[d].parents.contains(p) ==> certificates[p].round
            < certificates[d].round
}

/// Where parents are of lower rounds than their children, a stored vertex is an ancestor of
/// another just if parents lead down to it: leaving out the steps from low rounds loses nothing.
pub proof fn law_ancestry_walk_is_complete(
    certificates: Map<Digest, CertificateModel>,
    ancestor: Digest,
    descendant: Digest,
)
    requires
        parents_are_older(certificates),
        certificates.contains_key(ancestor),
        certificates.contains_key(descendant),
    ensures
        causally_before(certificates, ancestor, descendant) <==> ancestor != descendant && reach(
            ancestry_steps(certificates),
            descendant,
            ancestor,
        ),
{
    let all = ancestry_steps(certificates);
    let above = parent_steps(certificates, certificates[ancestor].round);
    assert(above.subset_of(all));
    if causally_before(certificates, ancestor, descendant) {
        lemma_reach_monotone(above, all, descendant, ancestor);
    }
    if ancestor != descendant && reach(all, descendant, ancestor) {
        let n = choose|n: nat| reach_in(all, n, descendant, ancestor);
        lemma_walk_stays_above(certificates, n, ancestor, descendant);
    }
}

/// Where parents are of lower rounds than their children, a certificate makes a stored vertex of a
/// round not below the floor visible just if it is or descends from the vertex: not walking below
/// the floor loses nothing.
pub proof fn law_visibility_walk_is_complete(
    certificates: Map<Digest, CertificateModel>,
    floor: Round,
    certificate: Digest,
    vertex: Digest,
)
    requires
        parents_are_older(certificates),
        certificates.contains_key(certificate),
        certificates.contains_key(vertex),
        certificates[vertex].round >= floor,
    ensures
        makes_visible(certificates, floor, certificate, vertex) <==> reach(
            ancestry_steps(certificates),
            certificate,
            vertex,
        ),
{
    let all = ancestry_steps(certificates);
    let walked = parent_steps(certificates, floor);
    let above = parent_steps(certificates, certificates[vertex].round);
    assert(walked.subset_of(all));
    assert(above.subset_of(walked));
    if makes_visible(certificates, floor, certificate, vertex) {
        lemma_reach_monotone(walked, all, certificate, vertex);
    }
    if reach(all, certificate, vertex) {
        let n = choose|n: nat| reach_in(all, n, certificate, vertex);
        lemma_walk_stays_above(certificates, n, vertex, certificate);
        lemma_reach_monotone(above, walked, certificate, vertex);
    }
}

proof fn lemma_walk_stays_above(
    certificates: Map<Digest, CertificateModel>,
    n: nat,
    ancestor: Digest,
    from: Digest,
)
    requires
        parents_are_older(certificates),
        certificates.contains_key(ancestor),
        certificates.contains_key(from),
        reach_in(ancestry_steps(certificates), n, from, ancestor),
    ensures
        from != ancestor ==> certificates[from].round > certificates[ancestor].round,
        reach(parent_steps(certificates, certificates[ancestor].round), from, ancestor),
    decreases n,
{
    let all = ancestry_steps(certificates);
    let above = parent_steps(certificates, certificates[ancestor].round);
    if n == 0 {
        lemma_reach_self(above, from);
    } else {
        let z = choose|z: Digest| #[trigger]
            all.contains((from, z)) && reach_in(all, (n - 1) as nat, z, ancestor);
        assert(certificates[from].parents.contains(z));
        if !certificates.contains_key(z) {
            if n - 1 > 0 {
                let w = choose|w: Digest| #[trigger]
                    all.contains((z, w)) && reach_in(all, (n - 2) as nat, w, ancestor);
                assert(certificates.contains_key(z));
            }
            assert(z == ancestor);
        }
        lemma_walk_stays_above(certificates, (n - 1) as nat, ancestor, z);
        assert(certificates[z].round < certificates[from].round);
        assert(above.contains((from, z)));
        lemma_reach_edge(above, from, z);
        lemma_reach_join(above, from, z, ancestor);
    }
}

proof fn lemma_outside(seen: Set<PublicKey>, other: Set<PublicKey>, faulty: Set<PublicKey>)
    requires
        seen.finite(),
        other.finite(),
        faulty.finite(),
        seen.len() > other.len() + faulty.len(),
    ensures
        exists|creator: PublicKey|
            seen.contains(creator) && !other.contains(creator) && !#[trigger] faulty.contains(
                creator,
            ),
{
    if forall|creator: PublicKey|
        seen.contains(creator) ==> other.contains(creator) || #[trigger] faulty.contains(creator) {
        let both = other.union(faulty);
        assert(seen.subset_of(both));
        vstd::set_lib::lemma_len_subset(seen, both);
        vstd::set_lib::lemma_len_union(other, faulty);
    }
}

/// With a threshold of `f + 1`, up to `f` faulty creators alone cannot account for a crossing: in
/// the round of the crossing, some other creator has seen `a` and not `b`.
pub proof fn law_crossing_needs_a_correct_creator(
    model: ExecutorModel,
    a: Digest,
    b: Digest,
    faulty: Set<PublicKey>,
)
    requires
        model.valid(),
        crosses(model.evidence, model.window, model.theta, a, b),
        faulty.finite(),
        model.theta >= faulty.len() + 1,
    ensures
        exists|r: Round, creator: PublicKey|
            later(coexistence(model.evidence, a, b), 1) <= r <= later(
                coexistence(model.evidence, a, b),
                model.window as int,
            ) && #[trigger] seen_at(model.evidence, a, r).contains(creator) && !seen_at(
                model.evidence,
                b,
                r,
            ).contains(creator) && !faulty.contains(creator),
{
    let s = model.snapshot();
    let start = coexistence(s.evidence, a, b);
    let r = choose|r: Round|
        later(start, 1) <= r <= later(start, s.window as int) && (#[trigger] seen_at(
            s.evidence,
            a,
            r,
        )).len() - seen_at(s.evidence, b, r).len() >= s.theta;
    let seen = seen_at(s.evidence, a, r);
    let other = seen_at(s.evidence, b, r);
    lemma_outside(seen, other, faulty);
    let creator = choose|creator: PublicKey|
        seen.contains(creator) && !other.contains(creator) && !#[trigger] faulty.contains(creator);
    assert(seen_at(s.evidence, a, r).contains(creator));
}

/// With a quorum of `2f + 1`, at least `f + 1` creators that are not among `f` faulty ones have
/// seen an eligible vertex in one round of its window.
pub proof fn law_eligible_vertex_is_widely_seen(
    model: ExecutorModel,
    a: Digest,
    faulty: Set<PublicKey>,
)
    requires
        model.valid(),
        model.snapshot().is_eligible(a),
        faulty.finite(),
        model.quorum >= 2 * faulty.len() + 1,
    ensures
        exists|r: Round|
            model.evidence[a].round <= r <= later(model.evidence[a].round, model.window as int)
                && (#[trigger] seen_at(model.evidence, a, r)).difference(faulty).len()
                >= faulty.len() + 1,
{
    let s = model.snapshot();
    let r = choose|r: Round|
        s.evidence[a].round <= r <= later(s.evidence[a].round, s.window as int)
            && #[trigger] s.evidence[a].seen.contains_key(r) && s.evidence[a].seen[r].len()
            >= s.quorum;
    let seen = seen_at(s.evidence, a, r);
    assert(seen == s.evidence[a].seen[r]);
    let rest = seen.difference(faulty);
    assert(seen.subset_of(rest.union(faulty)));
    vstd::set_lib::lemma_len_difference(seen, faulty);
    vstd::set_lib::lemma_len_subset(seen, rest.union(faulty));
    vstd::set_lib::lemma_len_union(rest, faulty);
}

/// Eligibility looks at the window of the vertex only: whoever sees it before its own round or
/// after the end of the window does not matter.
pub proof fn law_eligibility_window(
    evidence: Map<Digest, Evidence>,
    window: Round,
    quorum: nat,
    vertex: Digest,
    round: Round,
    creator: PublicKey,
)
    requires
        evidence.contains_key(vertex),
        round < evidence[vertex].round || round > later(evidence[vertex].round, window as int),
    ensures
        eligible(
            evidence.insert(vertex, with_seen(evidence[vertex], round, creator)),
            window,
            quorum,
            vertex,
        ) == eligible(evidence, window, quorum, vertex),
{
    let more = evidence.insert(vertex, with_seen(evidence[vertex], round, creator));
    if eligible(evidence, window, quorum, vertex) {
        let r = choose|r: Round|
            evidence[vertex].round <= r <= later(evidence[vertex].round, window as int)
                && #[trigger] evidence[vertex].seen.contains_key(r)
                && evidence[vertex].seen[r].len() >= quorum;
        assert(more[vertex].seen.contains_key(r));
    }
    if eligible(more, window, quorum, vertex) {
        let r = choose|r: Round|
            more[vertex].round <= r <= later(more[vertex].round, window as int)
                && #[trigger] more[vertex].seen.contains_key(r) && more[vertex].seen[r].len()
                >= quorum;
        assert(evidence[vertex].seen.contains_key(r));
    }
}

/// A comparison looks at the window after both vertices exist only: whoever sees one of them in
/// another round does not matter.
pub proof fn law_comparison_window(
    evidence: Map<Digest, Evidence>,
    window: Round,
    theta: int,
    a: Digest,
    b: Digest,
    vertex: Digest,
    round: Round,
    creator: PublicKey,
)
    requires
        evidence.contains_key(vertex),
        round < later(coexistence(evidence, a, b), 1) || round > later(
            coexistence(evidence, a, b),
            window as int,
        ),
    ensures
        crosses(
            evidence.insert(vertex, with_seen(evidence[vertex], round, creator)),
            window,
            theta,
            a,
            b,
        ) == crosses(evidence, window, theta, a, b),
{
    let more = evidence.insert(vertex, with_seen(evidence[vertex], round, creator));
    let start = coexistence(evidence, a, b);
    assert(coexistence(more, a, b) == start);
    assert forall|d: Digest, r: Round|
        #![trigger seen_at(more, d, r)]
        #![trigger seen_at(evidence, d, r)]
        r != round implies seen_at(more, d, r) == seen_at(evidence, d, r) by {}
    if crosses(evidence, window, theta, a, b) {
        let r = choose|r: Round|
            later(start, 1) <= r <= later(start, window as int) && (#[trigger] seen_at(
                evidence,
                a,
                r,
            )).len() - seen_at(evidence, b, r).len() >= theta;
        assert(seen_at(more, a, r) == seen_at(evidence, a, r));
        assert(seen_at(more, b, r) == seen_at(evidence, b, r));
    }
    if crosses(more, window, theta, a, b) {
        let r = choose|r: Round|
            later(start, 1) <= r <= later(start, window as int) && (#[trigger] seen_at(
                more,
                a,
                r,
            )).len() - seen_at(more, b, r).len() >= theta;
        assert(seen_at(evidence, a, r) == seen_at(more, a, r));
        assert(seen_at(evidence, b, r) == seen_at(more, b, r));
    }
}

/// What is counted of a slice adds up.
pub proof fn law_metrics_add_up(
    s: Snapshot,
    base: Seq<Digest>,
    components: Seq<Seq<Digest>>,
    order: Seq<Digest>,
    m: OrderingMetrics,
)
    requires
        base.no_duplicates(),
        slice_metrics(s, base, components, order, m),
    ensures
        m.eligible_vertex_count + m.ineligible_vertex_count == base.len(),
        2 * (m.causal_pair_count + m.incomparable_pair_count) == base.len() * (base.len() - 1),
        base.len() * (base.len() - 1) <= usize::MAX ==> m.all_pair_count == m.causal_pair_count
            + m.incomparable_pair_count,
        m.incomparable_pair_count == m.ineligible_pair_count + m.eligible_pair_count,
        m.eligible_pair_count == m.edge_count + m.conflict_count + m.no_signal_count,
        m.edge_count == m.intra_scc_ordering_edge_count + m.inter_scc_ordering_edge_count,
        m.incomparable_pair_inversion_count == m.constrained_inversion_count
            + m.unconstrained_inversion_count,
        m.constrained_inversion_count <= m.constrained_pair_count,
        m.inter_scc_ordering_edge_count <= m.constrained_pair_count,
{
    let nodes = by_key(s.certificates, base.to_set());
    let pairs = all_pairs(nodes);
    let edges = s.edges(base.to_set());
    lemma_by_key_exists(s.certificates, base);
    lemma_tie_sorted_distinct(s.certificates, nodes);
    nodes.unique_seq_to_set();
    base.unique_seq_to_set();
    lemma_pair_count(nodes);
    let all = |p: (Digest, Digest)| true;
    lemma_count_all(pairs, all);
    lemma_count_all(nodes, |x: Digest| true);
    lemma_count_split(
        nodes,
        |x: Digest| true,
        |x: Digest| s.is_eligible(x),
        |x: Digest| !s.is_eligible(x),
    );
    let open_pair = incomparable_and(s, all);
    let with_edge = edge_and(s, all);
    let related = |p: (Digest, Digest)| s.comparable(p.0, p.1);
    let both = |p: (Digest, Digest)|
        !s.comparable(p.0, p.1) && s.is_eligible(p.0) && s.is_eligible(p.1);
    let not_both = |p: (Digest, Digest)|
        !s.comparable(p.0, p.1) && s.verdict(p.0, p.1) == PairVerdict::Ineligible;
    let conflict = |p: (Digest, Digest)|
        !s.comparable(p.0, p.1) && s.verdict(p.0, p.1) == PairVerdict::Conflict;
    let silent = |p: (Digest, Digest)|
        !s.comparable(p.0, p.1) && s.verdict(p.0, p.1) == PairVerdict::NoSignal;
    let no_edge = |p: (Digest, Digest)| conflict(p) || silent(p);
    lemma_count_split(pairs, all, related, open_pair);
    lemma_count_split(pairs, open_pair, not_both, both);
    lemma_count_split(pairs, both, with_edge, no_edge);
    lemma_count_split(pairs, no_edge, conflict, silent);
    lemma_count_split(
        pairs,
        with_edge,
        edge_and(s, |p: (Digest, Digest)| connected(edges, p.0, p.1)),
        edge_and(s, |p: (Digest, Digest)| !connected(edges, p.0, p.1)),
    );
    let constrained = incomparable_and(s, |p: (Digest, Digest)| ordered_by_graph(edges, p));
    let turned = incomparable_and(
        s,
        |p: (Digest, Digest)| inverted(base, order, p) && ordered_by_graph(edges, p),
    );
    lemma_count_split(
        pairs,
        incomparable_and(s, |p: (Digest, Digest)| inverted(base, order, p)),
        turned,
        incomparable_and(
            s,
            |p: (Digest, Digest)| inverted(base, order, p) && !ordered_by_graph(edges, p),
        ),
    );
    lemma_count_split(
        pairs,
        constrained,
        turned,
        incomparable_and(
            s,
            |p: (Digest, Digest)| !inverted(base, order, p) && ordered_by_graph(edges, p),
        ),
    );
    let between = edge_and(s, |p: (Digest, Digest)| !connected(edges, p.0, p.1));
    assert forall|i: int| 0 <= i < pairs.len() && between(#[trigger] pairs[i]) implies constrained(
        pairs[i],
    ) by {
        let p = pairs[i];
        assert(pairs.contains(p));
        crate::ordering::lemma_all_pairs(nodes, p.0, p.1);
        assert(nodes.to_set().contains(p.0) && nodes.to_set().contains(p.1));
        crate::ordering::lemma_verdict_flips(s, p.0, p.1);
        if s.verdict(p.0, p.1) == PairVerdict::EdgeAToB {
            assert(edges.contains((p.0, p.1)));
            lemma_reach_edge(edges, p.0, p.1);
        } else {
            assert(edges.contains((p.1, p.0)));
            lemma_reach_edge(edges, p.1, p.0);
        }
    }
    lemma_count_split(
        pairs,
        constrained,
        between,
        |p: (Digest, Digest)| constrained(p) && !between(p),
    );
}

} // verus!
