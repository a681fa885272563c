//! The order of a slice is determined: there is one linearization of a graph.

use vstd::prelude::*;

use crate::counting::{count_where, lemma_count_same, lemma_kth_unique};
use crate::linearize::{causal_within, component_ready, is_linearization, joined, leads};
use crate::metrics::{displacements, inverted};
use crate::ordering::{
    all_pairs, by_key, edge_and, incomparable_and, lemma_all_pairs, ordered_by_graph,
    slice_metrics, Snapshot,
};
use crate::relation::connected;
use crate::scc::are_components;
use crate::state::OrderingMetrics;
use crate::tie_break::{
    lemma_insert_sorted, lemma_tie_sorted_distinct, lemma_tie_total, tie_before, tie_order,
    tie_sorted,
};
use crate::topology::{edges_within, is_key_order, is_ready, lemma_take_next};
use crate::types::{CertificateModel, Digest, Round};
use crate::visibility::{coexistence, crosses, seen_at, PairVerdict};

verus! {

/// There is one order of the points that respects the edges and prefers by the key.
pub proof fn lemma_key_order_unique<K>(
    edges: Set<(K, K)>,
    points: Set<K>,
    stands_before: spec_fn(K, K) -> bool,
    one: Seq<K>,
    other: Seq<K>,
)
    requires
        is_key_order(edges, points, stands_before, one),
        is_key_order(edges, points, stands_before, other),
        forall|a: K, b: K| !(#[trigger] stands_before(a, b) && stands_before(b, a)),
    ensures
        one == other,
{
    one.unique_seq_to_set();
    other.unique_seq_to_set();
    lemma_key_order_prefix(edges, points, stands_before, one, other, one.len() as int);
    assert(one.take(one.len() as int) =~= one);
    assert(other.take(one.len() as int) =~= other);
}

proof fn lemma_key_order_prefix<K>(
    edges: Set<(K, K)>,
    points: Set<K>,
    stands_before: spec_fn(K, K) -> bool,
    one: Seq<K>,
    other: Seq<K>,
    i: int,
)
    requires
        is_key_order(edges, points, stands_before, one),
        is_key_order(edges, points, stands_before, other),
        forall|a: K, b: K| !(#[trigger] stands_before(a, b) && stands_before(b, a)),
        one.len() == other.len(),
        0 <= i <= one.len(),
    ensures
        one.take(i) == other.take(i),
    decreases i,
{
    if i > 0 {
        lemma_key_order_prefix(edges, points, stands_before, one, other, i - 1);
        let a = one[i - 1];
        let b = other[i - 1];
        assert(is_ready(edges, points, one.take(i - 1).to_set(), a));
        assert(is_ready(edges, points, other.take(i - 1).to_set(), b));
        if a != b {
            assert(stands_before(a, b));
            assert(stands_before(b, a));
        }
        assert(one.take(i) =~= one.take(i - 1).push(a));
        assert(other.take(i) =~= other.take(i - 1).push(b));
    } else {
        assert(one.take(i) =~= other.take(i));
    }
}

/// Where two linearizations agree up to a place, the component that the one has there comes no
/// earlier in the other, and could stand there.
proof fn lemma_place_in_other(
    nodes: Set<Digest>,
    edges: Set<(Digest, Digest)>,
    one: Seq<Seq<Digest>>,
    other: Seq<Seq<Digest>>,
    k: int,
) -> (d: int)
    requires
        forall|a: Digest, b: Digest| #[trigger]
            edges.contains((a, b)) ==> nodes.contains(a) && nodes.contains(b),
        are_components(edges, nodes, one),
        are_components(edges, nodes, other),
        forall|c: int, d: int, x: Digest, y: Digest|
            #![trigger one[c].contains(x), one[d].contains(y)]
            0 <= c < one.len() && 0 <= d < one.len() && one[c].contains(x) && one[d].contains(y)
                && edges.contains((x, y)) ==> c <= d,
        0 <= k < one.len(),
        k <= other.len(),
        forall|b: int| 0 <= b < k ==> #[trigger] one[b] == other[b],
    ensures
        k <= d < other.len(),
        other[d].to_set() == one[k].to_set(),
        component_ready(edges, other, k, d),
{
    let x = one[k][0];
    assert(one[k].len() > 0);
    assert(one[k].contains(x));
    assert(nodes.contains(x));
    let d = choose|d: int| 0 <= d < other.len() && (#[trigger] other[d]).contains(x);
    assert(0 <= d < other.len() && other[d].contains(x));
    if d < k {
        assert(one[d] == other[d]);
        assert(one[d].contains(x) && one[k].contains(x));
    }
    assert forall|y: Digest| one[k].contains(y) <==> other[d].contains(y) by {
        assert(one[k].contains(x) && other[d].contains(x));
        assert(one[k].contains(y) <==> nodes.contains(y) && connected(edges, x, y));
        assert(other[d].contains(y) <==> nodes.contains(y) && connected(edges, x, y));
    }
    assert(other[d].to_set() =~= one[k].to_set());
    assert forall|a: Digest, b: Digest| #[trigger]
        edges.contains((a, b)) && other[d].contains(b) && !other[d].contains(a) implies exists|p: int|
        0 <= p < k && (#[trigger] other[p]).contains(a) by {
        assert(one[k].contains(b) && !one[k].contains(a));
        let p = choose|p: int| 0 <= p < one.len() && (#[trigger] one[p]).contains(a);
        assert(0 <= p < one.len() && one[p].contains(a));
        assert(p <= k);
        assert(other[p] == one[p]);
    }
    d
}

proof fn lemma_linearization_step(
    certificates: Map<Digest, CertificateModel>,
    nodes: Set<Digest>,
    edges: Set<(Digest, Digest)>,
    causal: Set<(Digest, Digest)>,
    one: Seq<Seq<Digest>>,
    other: Seq<Seq<Digest>>,
    k: int,
)
    requires
        forall|a: Digest, b: Digest| #[trigger]
            edges.contains((a, b)) ==> nodes.contains(a) && nodes.contains(b),
        is_linearization(certificates, nodes, edges, causal, one, joined(one)),
        is_linearization(certificates, nodes, edges, causal, other, joined(other)),
        0 <= k < one.len(),
        k < other.len(),
        forall|b: int| 0 <= b < k ==> #[trigger] one[b] == other[b],
    ensures
        one[k] == other[k],
{
    let d = lemma_place_in_other(nodes, edges, one, other, k);
    let e = lemma_place_in_other(nodes, edges, other, one, k);
    if d > k {
        let x = one[k][0];
        assert(one[k].len() > 0 && one[k].contains(x) && one[k].to_set().contains(x));
        assert(other[d].to_set().contains(x));
        assert(other[d].contains(x));
        if e == k {
            assert(other[k].to_set().contains(x));
            assert(other[k].contains(x));
        }
        assert(leads(certificates, other[k], other[d]));
        assert(leads(certificates, one[k], one[e]));
        let m = choose|m: Digest| #[trigger]
            other[k].contains(m) && forall|n: Digest| #[trigger]
                other[d].contains(n) ==> tie_before(certificates, m, n);
        let n = choose|m: Digest| #[trigger]
            one[k].contains(m) && forall|n: Digest| #[trigger]
                one[e].contains(n) ==> tie_before(certificates, m, n);
        assert(one[k].to_set().contains(n) && other[d].to_set().contains(n));
        assert(other[k].to_set().contains(m) && one[e].to_set().contains(m));
        assert(tie_before(certificates, m, n));
        assert(tie_before(certificates, n, m));
        lemma_tie_total(certificates, m, n);
    }
    assert(d == k);
    let order = tie_order(certificates);
    assert forall|a: Digest, b: Digest| !(#[trigger] order(a, b) && order(b, a)) by {
        lemma_tie_total(certificates, a, b);
    }
    lemma_key_order_unique(
        edges_within(causal_within(edges, causal), one[k].to_set()),
        one[k].to_set(),
        order,
        one[k],
        other[k],
    );
}

proof fn lemma_linearization_prefix(
    certificates: Map<Digest, CertificateModel>,
    nodes: Set<Digest>,
    edges: Set<(Digest, Digest)>,
    causal: Set<(Digest, Digest)>,
    one: Seq<Seq<Digest>>,
    other: Seq<Seq<Digest>>,
    k: int,
)
    requires
        forall|a: Digest, b: Digest| #[trigger]
            edges.contains((a, b)) ==> nodes.contains(a) && nodes.contains(b),
        is_linearization(certificates, nodes, edges, causal, one, joined(one)),
        is_linearization(certificates, nodes, edges, causal, other, joined(other)),
        0 <= k <= one.len(),
        k <= other.len(),
    ensures
        forall|b: int| 0 <= b < k ==> #[trigger] one[b] == other[b],
    decreases k,
{
    if k > 0 {
        lemma_linearization_prefix(certificates, nodes, edges, causal, one, other, k - 1);
        lemma_linearization_step(certificates, nodes, edges, causal, one, other, k - 1);
    }
}

proof fn lemma_not_longer(
    nodes: Set<Digest>,
    edges: Set<(Digest, Digest)>,
    one: Seq<Seq<Digest>>,
    other: Seq<Seq<Digest>>,
)
    requires
        are_components(edges, nodes, one),
        are_components(edges, nodes, other),
        forall|b: int| 0 <= b < one.len() && b < other.len() ==> #[trigger] one[b] == other[b],
    ensures
        one.len() <= other.len(),
{
    if one.len() > other.len() {
        let k = other.len() as int;
        let x = one[k][0];
        assert(one[k].len() > 0 && one[k].contains(x));
        assert(nodes.contains(x));
        let d = choose|d: int| 0 <= d < other.len() && (#[trigger] other[d]).contains(x);
        assert(0 <= d < other.len() && other[d].contains(x));
        assert(one[d] == other[d]);
        assert(one[d].contains(x) && one[k].contains(x));
    }
}

/// A graph has one linearization: the committed certificates and the edges decide the order of
/// the components and of the vertices.
pub proof fn lemma_linearization_unique(
    certificates: Map<Digest, CertificateModel>,
    nodes: Set<Digest>,
    edges: Set<(Digest, Digest)>,
    causal: Set<(Digest, Digest)>,
    one: Seq<Seq<Digest>>,
    other: Seq<Seq<Digest>>,
)
    requires
        forall|a: Digest, b: Digest| #[trigger]
            edges.contains((a, b)) ==> nodes.contains(a) && nodes.contains(b),
        is_linearization(certificates, nodes, edges, causal, one, joined(one)),
        is_linearization(certificates, nodes, edges, causal, other, joined(other)),
    ensures
        one == other,
{
    let k: int = if one.len() <= other.len() {
        one.len() as int
    } else {
        other.len() as int
    };
    lemma_linearization_prefix(certificates, nodes, edges, causal, one, other, k);
    lemma_not_longer(nodes, edges, one, other);
    assert forall|b: int| 0 <= b < other.len() && b < one.len() implies #[trigger] other[b] == one[b] by {
        assert(one[b] == other[b]);
    }
    lemma_not_longer(nodes, edges, other, one);
    assert(one =~= other);
}

/// The components of the graph in the order in which they are executed, each with its vertices
/// in their order.
pub open spec fn linearization(
    certificates: Map<Digest, CertificateModel>,
    nodes: Set<Digest>,
    edges: Set<(Digest, Digest)>,
    causal: Set<(Digest, Digest)>,
) -> Seq<Seq<Digest>> {
    choose|components: Seq<Seq<Digest>>|
        is_linearization(certificates, nodes, edges, causal, components, joined(components))
}

impl Snapshot {
    /// The components of a slice in execution order.
    pub open spec fn components(self, nodes: Set<Digest>) -> Seq<Seq<Digest>> {
        linearization(self.certificates, nodes, self.edges(nodes), self.causal_edges(nodes))
    }

    /// The vertices of a slice in execution order.
    pub open spec fn order(self, nodes: Set<Digest>) -> Seq<Digest> {
        joined(self.components(nodes))
    }

    /// What is counted of a slice whose vertices came in the order `base`.
    pub open spec fn metrics(self, base: Seq<Digest>) -> OrderingMetrics {
        choose|metrics: OrderingMetrics|
            slice_metrics(
                self,
                base,
                self.components(base.to_set()),
                self.order(base.to_set()),
                metrics,
            )
    }

    /// Whether the slice is ordered and counted as it should be: the components make up the one
    /// linearization of the ordering graph, and the order holds every vertex once.
    #[verifier::opaque]
    pub open spec fn stands(self, base: Seq<Digest>) -> bool {
        let nodes = base.to_set();
        &&& is_linearization(
            self.certificates,
            nodes,
            self.edges(nodes),
            self.causal_edges(nodes),
            self.components(nodes),
            self.order(nodes),
        )
        &&& self.order(nodes).no_duplicates()
        &&& self.order(nodes).to_set() == nodes
        &&& slice_metrics(
            self,
            base,
            self.components(nodes),
            self.order(nodes),
            self.metrics(base),
        )
    }

    /// Whether the two tell the same about the vertices.
    pub open spec fn agrees(self, other: Snapshot, nodes: Set<Digest>) -> bool {
        &&& self.certificates == other.certificates
        &&& self.window == other.window
        &&& self.quorum == other.quorum
        &&& self.theta == other.theta
        &&& forall|d: Digest| #[trigger]
            nodes.contains(d) ==> self.evidence.contains_key(d) == other.evidence.contains_key(d)
        &&& forall|d: Digest| #[trigger]
            nodes.contains(d) && self.evidence.contains_key(d) ==> self.evidence[d]
                == other.evidence[d]
    }
}

/// What is counted of a slice is determined.
pub proof fn lemma_metrics_unique(
    s: Snapshot,
    base: Seq<Digest>,
    components: Seq<Seq<Digest>>,
    order: Seq<Digest>,
    one: OrderingMetrics,
    other: OrderingMetrics,
)
    requires
        slice_metrics(s, base, components, order, one),
        slice_metrics(s, base, components, order, other),
    ensures
        one == other,
{
    let n = base.len() as int;
    if n > 0 {
        let moves = displacements(base, order);
        lemma_kth_unique(
            moves,
            (n - 1) / 2,
            one.position_displacement_median_low,
            other.position_displacement_median_low,
        );
        lemma_kth_unique(
            moves,
            n / 2,
            one.position_displacement_median_high,
            other.position_displacement_median_high,
        );
        lemma_kth_unique(
            moves,
            (95 * n + 99) / 100 - 1,
            one.position_displacement_p95,
            other.position_displacement_p95,
        );
    }
}

/// The outcome for a slice is determined by the snapshot: the components, the order and what is
/// counted.
pub proof fn lemma_outcome_unique(
    s: Snapshot,
    base: Seq<Digest>,
    components: Seq<Seq<Digest>>,
    order: Seq<Digest>,
    metrics: OrderingMetrics,
)
    requires
        is_linearization(
            s.certificates,
            base.to_set(),
            s.edges(base.to_set()),
            s.causal_edges(base.to_set()),
            components,
            order,
        ),
        slice_metrics(s, base, components, order, metrics),
    ensures
        s.components(base.to_set()) == components,
        s.order(base.to_set()) == order,
        s.metrics(base) == metrics,
{
    let nodes = base.to_set();
    let chosen = s.components(nodes);
    assert(order == joined(components));
    assert(is_linearization(
        s.certificates,
        nodes,
        s.edges(nodes),
        s.causal_edges(nodes),
        chosen,
        joined(chosen),
    ));
    lemma_linearization_unique(
        s.certificates,
        nodes,
        s.edges(nodes),
        s.causal_edges(nodes),
        components,
        chosen,
    );
    let counted = s.metrics(base);
    assert(slice_metrics(s, base, components, order, counted));
    lemma_metrics_unique(s, base, components, order, counted, metrics);
}

/// Vertices can be put in the order of the fixed key.
pub proof fn lemma_by_key_exists(certificates: Map<Digest, CertificateModel>, base: Seq<Digest>)
    ensures
        tie_sorted(certificates, by_key(certificates, base.to_set())),
        by_key(certificates, base.to_set()).to_set() == base.to_set(),
{
    let sorted = lemma_sort(certificates, base);
    assert(tie_sorted(certificates, sorted) && sorted.to_set() == base.to_set());
}

proof fn lemma_sort(certificates: Map<Digest, CertificateModel>, base: Seq<Digest>) -> (sorted: Seq<
    Digest,
>)
    ensures
        tie_sorted(certificates, sorted),
        sorted.to_set() == base.to_set(),
    decreases base.len(),
{
    if base.len() == 0 {
        assert(base.to_set() =~= Seq::<Digest>::empty().to_set());
        Seq::empty()
    } else {
        let node = base.last();
        let rest = lemma_sort(certificates, base.drop_last());
        lemma_take_next(base, base.len() - 1);
        assert(base.take(base.len() - 1) =~= base.drop_last());
        assert(base.take(base.len() as int) =~= base);
        if rest.contains(node) {
            assert(rest.to_set().contains(node));
            assert(base.to_set() =~= rest.to_set());
            rest
        } else {
            let place = lemma_find_place(certificates, rest, node, rest.len() as int);
            lemma_insert_sorted(certificates, rest, place, node);
            assert(rest.insert(place, node).to_set() =~= base.to_set());
            rest.insert(place, node)
        }
    }
}

proof fn lemma_find_place(
    certificates: Map<Digest, CertificateModel>,
    sorted: Seq<Digest>,
    node: Digest,
    n: int,
) -> (place: int)
    requires
        tie_sorted(certificates, sorted),
        !sorted.contains(node),
        0 <= n <= sorted.len(),
    ensures
        0 <= place <= n,
        forall|i: int| 0 <= i < place ==> tie_before(certificates, #[trigger] sorted[i], node),
        place < n ==> tie_before(certificates, node, sorted[place]),
    decreases n,
{
    if n == 0 {
        0
    } else {
        let place = lemma_find_place(certificates, sorted, node, n - 1);
        assert(sorted.contains(sorted[n - 1]));
        lemma_tie_total(certificates, sorted[n - 1], node);
        if place == n - 1 && tie_before(certificates, sorted[n - 1], node) {
            n
        } else {
            place
        }
    }
}

proof fn lemma_agreement_pair(s: Snapshot, t: Snapshot, nodes: Set<Digest>, a: Digest, b: Digest)
    requires
        s.agrees(t, nodes),
        nodes.contains(a),
        nodes.contains(b),
    ensures
        s.is_eligible(a) == t.is_eligible(a),
        s.comparable(a, b) == t.comparable(a, b),
        s.verdict(a, b) == t.verdict(a, b),
        s.visible_first(a, b) == t.visible_first(a, b),
{
    lemma_agreement_eligible(s, t, nodes, a);
    lemma_agreement_eligible(s, t, nodes, b);
    lemma_agreement_crosses(s, t, nodes, a, b);
    lemma_agreement_crosses(s, t, nodes, b, a);
}

proof fn lemma_agreement_eligible(s: Snapshot, t: Snapshot, nodes: Set<Digest>, a: Digest)
    requires
        s.agrees(t, nodes),
        nodes.contains(a),
    ensures
        s.is_eligible(a) == t.is_eligible(a),
{
}

proof fn lemma_agreement_crosses(
    s: Snapshot,
    t: Snapshot,
    nodes: Set<Digest>,
    a: Digest,
    b: Digest,
)
    requires
        s.agrees(t, nodes),
        nodes.contains(a),
        nodes.contains(b),
    ensures
        s.evidence.contains_key(a) && s.evidence.contains_key(b) ==> crosses(
            s.evidence,
            s.window,
            s.theta,
            a,
            b,
        ) == crosses(t.evidence, t.window, t.theta, a, b),
{
    if s.evidence.contains_key(a) && s.evidence.contains_key(b) {
        assert forall|r: Round|
            #![trigger seen_at(s.evidence, a, r)]
            #![trigger seen_at(t.evidence, a, r)]
            seen_at(s.evidence, a, r) == seen_at(t.evidence, a, r) && seen_at(s.evidence, b, r)
                == seen_at(t.evidence, b, r) by {}
        assert(coexistence(s.evidence, a, b) == coexistence(t.evidence, a, b));
    }
}

/// The order of a slice depends on the evidence of its own vertices only.
pub proof fn lemma_outcome_local(
    s: Snapshot,
    t: Snapshot,
    base: Seq<Digest>,
    components: Seq<Seq<Digest>>,
    order: Seq<Digest>,
    metrics: OrderingMetrics,
)
    requires
        s.agrees(t, base.to_set()),
        slice_metrics(s, base, components, order, metrics),
    ensures
        s.edges(base.to_set()) == t.edges(base.to_set()),
        s.causal_edges(base.to_set()) == t.causal_edges(base.to_set()),
        s.components(base.to_set()) == t.components(base.to_set()),
        slice_metrics(t, base, components, order, metrics),
{
    let points = base.to_set();
    let nodes = by_key(s.certificates, points);
    let pairs = all_pairs(nodes);
    let edges = s.edges(points);
    assert forall|e: (Digest, Digest)| #[trigger]
        s.edges(points).contains(e) <==> t.edges(points).contains(e) by {
        if points.contains(e.0) && points.contains(e.1) {
            lemma_agreement_pair(s, t, points, e.0, e.1);
        }
    }
    assert(s.edges(points) =~= t.edges(points));
    assert(s.causal_edges(points) =~= t.causal_edges(points));
    lemma_by_key_exists(s.certificates, base);
    lemma_tie_sorted_distinct(s.certificates, nodes);
    assert forall|i: int| 0 <= i < nodes.len() implies s.is_eligible(#[trigger] nodes[i])
        == t.is_eligible(nodes[i]) by {
        assert(nodes.to_set().contains(nodes[i]));
        lemma_agreement_eligible(s, t, points, nodes[i]);
    }
    lemma_count_same(nodes, |x: Digest| s.is_eligible(x), |x: Digest| t.is_eligible(x));
    lemma_count_same(nodes, |x: Digest| !s.is_eligible(x), |x: Digest| !t.is_eligible(x));
    assert forall|i: int| 0 <= i < pairs.len() implies ({
        let p = #[trigger] pairs[i];
        &&& s.is_eligible(p.0) == t.is_eligible(p.0)
        &&& s.is_eligible(p.1) == t.is_eligible(p.1)
        &&& s.comparable(p.0, p.1) == t.comparable(p.0, p.1)
        &&& s.verdict(p.0, p.1) == t.verdict(p.0, p.1)
    }) by {
        let p = pairs[i];
        assert(pairs.contains(p));
        lemma_all_pairs(nodes, p.0, p.1);
        assert(nodes.to_set().contains(p.0) && nodes.to_set().contains(p.1));
        lemma_agreement_pair(s, t, points, p.0, p.1);
        lemma_agreement_pair(s, t, points, p.1, p.0);
    }
    lemma_agreement_counts(s, t, pairs);
    lemma_agreement_keep(s, t, pairs, |p: (Digest, Digest)| true);
    lemma_agreement_keep(s, t, pairs, |p: (Digest, Digest)| connected(edges, p.0, p.1));
    lemma_agreement_keep(s, t, pairs, |p: (Digest, Digest)| !connected(edges, p.0, p.1));
    lemma_agreement_keep(s, t, pairs, |p: (Digest, Digest)| ordered_by_graph(edges, p));
    lemma_agreement_keep(s, t, pairs, |p: (Digest, Digest)| inverted(base, order, p));
    lemma_agreement_keep(
        s,
        t,
        pairs,
        |p: (Digest, Digest)| inverted(base, order, p) && ordered_by_graph(edges, p),
    );
    lemma_agreement_keep(
        s,
        t,
        pairs,
        |p: (Digest, Digest)| inverted(base, order, p) && !ordered_by_graph(edges, p),
    );
}

spec fn pairs_agree(s: Snapshot, t: Snapshot, pairs: Seq<(Digest, Digest)>) -> bool {
    forall|i: int|
        0 <= i < pairs.len() ==> ({
            let p = #[trigger] pairs[i];
            &&& s.is_eligible(p.0) == t.is_eligible(p.0)
            &&& s.is_eligible(p.1) == t.is_eligible(p.1)
            &&& s.comparable(p.0, p.1) == t.comparable(p.0, p.1)
            &&& s.verdict(p.0, p.1) == t.verdict(p.0, p.1)
        })
}

proof fn lemma_agreement_counts(s: Snapshot, t: Snapshot, pairs: Seq<(Digest, Digest)>)
    requires
        pairs_agree(s, t, pairs),
    ensures
        count_where(pairs, |p: (Digest, Digest)| s.comparable(p.0, p.1)) == count_where(
            pairs,
            |p: (Digest, Digest)| t.comparable(p.0, p.1),
        ),
        count_where(
            pairs,
            |p: (Digest, Digest)|
                !s.comparable(p.0, p.1) && s.is_eligible(p.0) && s.is_eligible(p.1),
        ) == count_where(
            pairs,
            |p: (Digest, Digest)|
                !t.comparable(p.0, p.1) && t.is_eligible(p.0) && t.is_eligible(p.1),
        ),
        count_where(
            pairs,
            |p: (Digest, Digest)|
                !s.comparable(p.0, p.1) && s.verdict(p.0, p.1) == PairVerdict::Ineligible,
        ) == count_where(
            pairs,
            |p: (Digest, Digest)|
                !t.comparable(p.0, p.1) && t.verdict(p.0, p.1) == PairVerdict::Ineligible,
        ),
        count_where(
            pairs,
            |p: (Digest, Digest)|
                !s.comparable(p.0, p.1) && s.verdict(p.0, p.1) == PairVerdict::Conflict,
        ) == count_where(
            pairs,
            |p: (Digest, Digest)|
                !t.comparable(p.0, p.1) && t.verdict(p.0, p.1) == PairVerdict::Conflict,
        ),
        count_where(
            pairs,
            |p: (Digest, Digest)|
                !s.comparable(p.0, p.1) && s.verdict(p.0, p.1) == PairVerdict::NoSignal,
        ) == count_where(
            pairs,
            |p: (Digest, Digest)|
                !t.comparable(p.0, p.1) && t.verdict(p.0, p.1) == PairVerdict::NoSignal,
        ),
{
    lemma_count_same(
        pairs,
        |p: (Digest, Digest)| s.comparable(p.0, p.1),
        |p: (Digest, Digest)| t.comparable(p.0, p.1),
    );
    lemma_count_same(
        pairs,
        |p: (Digest, Digest)|
            !s.comparable(p.0, p.1) && s.is_eligible(p.0) && s.is_eligible(p.1),
        |p: (Digest, Digest)|
            !t.comparable(p.0, p.1) && t.is_eligible(p.0) && t.is_eligible(p.1),
    );
    lemma_count_same(
        pairs,
        |p: (Digest, Digest)|
            !s.comparable(p.0, p.1) && s.verdict(p.0, p.1) == PairVerdict::Ineligible,
        |p: (Digest, Digest)|
            !t.comparable(p.0, p.1) && t.verdict(p.0, p.1) == PairVerdict::Ineligible,
    );
    lemma_count_same(
        pairs,
        |p: (Digest, Digest)|
            !s.comparable(p.0, p.1) && s.verdict(p.0, p.1) == PairVerdict::Conflict,
        |p: (Digest, Digest)|
            !t.comparable(p.0, p.1) && t.verdict(p.0, p.1) == PairVerdict::Conflict,
    );
    lemma_count_same(
        pairs,
        |p: (Digest, Digest)|
            !s.comparable(p.0, p.1) && s.verdict(p.0, p.1) == PairVerdict::NoSignal,
        |p: (Digest, Digest)|
            !t.comparable(p.0, p.1) && t.verdict(p.0, p.1) == PairVerdict::NoSignal,
    );
}

proof fn lemma_agreement_keep(
    s: Snapshot,
    t: Snapshot,
    pairs: Seq<(Digest, Digest)>,
    keep: spec_fn((Digest, Digest)) -> bool,
)
    requires
        pairs_agree(s, t, pairs),
    ensures
        count_where(pairs, incomparable_and(s, keep)) == count_where(
            pairs,
            incomparable_and(t, keep),
        ),
        count_where(pairs, edge_and(s, keep)) == count_where(pairs, edge_and(t, keep)),
{
    lemma_count_same(pairs, incomparable_and(s, keep), incomparable_and(t, keep));
    lemma_count_same(pairs, edge_and(s, keep), edge_and(t, keep));
}

/// A slice has the same outcome in any snapshot that tells the same about its vertices.
pub proof fn lemma_outcome_agrees(s: Snapshot, t: Snapshot, base: Seq<Digest>)
    requires
        s.agrees(t, base.to_set()),
        s.stands(base),
    ensures
        t.stands(base),
        t.components(base.to_set()) == s.components(base.to_set()),
        t.order(base.to_set()) == s.order(base.to_set()),
        t.metrics(base) == s.metrics(base),
{
    reveal(Snapshot::stands);
    let nodes = base.to_set();
    lemma_outcome_local(s, t, base, s.components(nodes), s.order(nodes), s.metrics(base));
    lemma_outcome_unique(t, base, s.components(nodes), s.order(nodes), s.metrics(base));
}

} // verus!
