//! The order of the vertices of one slice at its seal snapshot.

use vstd::prelude::*;

use crate::counting::{
    count_where, is_kth_smallest, lemma_count_all, lemma_count_push, lemma_count_same,
    lemma_count_take,
};
use crate::linearize::{
    causal_within, condensed, is_linearization, joined, lemma_acyclic_subset,
    lemma_condensed_reach, numbers_components, Linearization,
};
use crate::metrics::{
    displacements, inverted, pair_constrained, pair_known, position,
};
use crate::ordered::{OrderedMap, OrderedSet};
use crate::relation::{
    acyclic, closed_under, connected, lemma_reach_is_reach_plus, lemma_reach_plus_is_reach,
    lemma_reach_stays, reach, reach_plus,
};
use crate::scc::{add_edge, edgeless, graph_edges, graph_within, lists};
use crate::state::{Evidence, MrvExecutor, OrderingMetrics};
use crate::tie_break::{lemma_tie_sorted_distinct, lemma_tie_total, tie_before, tie_sorted};
use crate::topology::lemma_take_next;
use crate::types::{CertificateModel, Digest, Round};
use crate::visibility::{causally_before, eligible, pair_verdict, PairVerdict};

verus! {

/// What the order of a slice depends on.
pub struct Snapshot {
    pub certificates: Map<Digest, CertificateModel>,
    pub evidence: Map<Digest, Evidence>,
    pub window: Round,
    pub quorum: nat,
    pub theta: int,
}

impl Snapshot {
    /// Whether `a` causally precedes `b`.
    pub open spec fn causal(self, a: Digest, b: Digest) -> bool {
        causally_before(self.certificates, a, b)
    }

    /// Whether the vertices are causally related.
    pub open spec fn comparable(self, a: Digest, b: Digest) -> bool {
        self.causal(a, b) || self.causal(b, a)
    }

    /// Whether the vertex is eligible.
    pub open spec fn is_eligible(self, vertex: Digest) -> bool {
        eligible(self.evidence, self.window, self.quorum, vertex)
    }

    /// The verdict on a pair that is not causally related.
    pub open spec fn verdict(self, a: Digest, b: Digest) -> PairVerdict {
        pair_verdict(
            self.evidence,
            self.window,
            self.theta,
            a,
            b,
            self.is_eligible(a),
            self.is_eligible(b),
        )
    }

    /// Whether visibility puts `a` before `b`.
    pub open spec fn visible_first(self, a: Digest, b: Digest) -> bool {
        a != b && !self.comparable(a, b) && self.verdict(a, b) == PairVerdict::EdgeAToB
    }

    /// The causal edges between the vertices.
    pub open spec fn causal_edges(self, nodes: Set<Digest>) -> Set<(Digest, Digest)> {
        Set::new(
            |e: (Digest, Digest)|
                nodes.contains(e.0) && nodes.contains(e.1) && self.causal(e.0, e.1),
        )
    }

    /// The ordering graph: causal edges, and visibility edges between causally unrelated vertices.
    pub open spec fn edges(self, nodes: Set<Digest>) -> Set<(Digest, Digest)> {
        Set::new(
            |e: (Digest, Digest)|
                nodes.contains(e.0) && nodes.contains(e.1) && (self.causal(e.0, e.1)
                    || self.visible_first(e.0, e.1)),
        )
    }

    /// Whether the pair got a visibility edge.
    pub open spec fn has_edge(self, pair: (Digest, Digest)) -> bool {
        self.verdict(pair.0, pair.1) == PairVerdict::EdgeAToB || self.verdict(pair.0, pair.1)
            == PairVerdict::EdgeBToA
    }
}

impl MrvExecutor {
    /// What the order of a slice depends on.
    pub open spec fn snapshot(self) -> Snapshot {
        Snapshot {
            certificates: self.certificates(),
            evidence: self.evidence(),
            window: self.mrv_window,
            quorum: self.reach_threshold as nat,
            theta: self.delta_threshold as int,
        }
    }
}

/// The verdict on a pair turned around.
pub open spec fn flipped(verdict: PairVerdict) -> PairVerdict {
    match verdict {
        PairVerdict::EdgeAToB => PairVerdict::EdgeBToA,
        PairVerdict::EdgeBToA => PairVerdict::EdgeAToB,
        other => other,
    }
}

/// The pairs of the vertex at place `i` with those after it.
pub open spec fn pair_row(nodes: Seq<Digest>, i: int) -> Seq<(Digest, Digest)> {
    Seq::new((nodes.len() - i - 1) as nat, |k: int| (nodes[i], nodes[i + 1 + k]))
}

/// The pairs of the vertices before place `i` with those after them.
pub open spec fn pairs_before(nodes: Seq<Digest>, i: int) -> Seq<(Digest, Digest)>
    decreases i,
{
    if i <= 0 {
        Seq::empty()
    } else {
        pairs_before(nodes, i - 1) + pair_row(nodes, i - 1)
    }
}

/// All pairs of different vertices, each once.
pub open spec fn all_pairs(nodes: Seq<Digest>) -> Seq<(Digest, Digest)> {
    pairs_before(nodes, nodes.len() as int)
}

/// The vertices in the order of the fixed key.
pub open spec fn by_key(certificates: Map<Digest, CertificateModel>, nodes: Set<Digest>) -> Seq<
    Digest,
> {
    choose|sorted: Seq<Digest>| tie_sorted(certificates, sorted) && sorted.to_set() == nodes
}

/// There is one way to put vertices in the order of the fixed key.
pub proof fn lemma_by_key(certificates: Map<Digest, CertificateModel>, sorted: Seq<Digest>)
    requires
        tie_sorted(certificates, sorted),
    ensures
        by_key(certificates, sorted.to_set()) == sorted,
{
    let other = by_key(certificates, sorted.to_set());
    assert(tie_sorted(certificates, other) && other.to_set() == sorted.to_set());
    lemma_sorted_once(certificates, sorted, other);
}

proof fn lemma_sorted_once(
    certificates: Map<Digest, CertificateModel>,
    one: Seq<Digest>,
    other: Seq<Digest>,
)
    requires
        tie_sorted(certificates, one),
        tie_sorted(certificates, other),
        one.to_set() == other.to_set(),
    ensures
        one == other,
    decreases one.len(),
{
    lemma_tie_sorted_distinct(certificates, one);
    lemma_tie_sorted_distinct(certificates, other);
    one.unique_seq_to_set();
    other.unique_seq_to_set();
    if one.len() > 0 {
        let n = one.len() - 1;
        let a = one[n];
        let b = other[n];
        assert(a == b) by {
            assert(one.to_set().contains(a) && other.to_set().contains(b));
            assert(other.to_set().contains(a) && one.to_set().contains(b));
            let i = other.index_of(a);
            let j = one.index_of(b);
            assert(other[i] == a && one[j] == b);
            lemma_tie_total(certificates, a, b);
            if i < n {
                assert(tie_before(certificates, other[i], other[n]));
                if j < n {
                    assert(tie_before(certificates, one[j], one[n]));
                }
            }
        }
        let one_init = one.drop_last();
        let other_init = other.drop_last();
        assert(tie_sorted(certificates, one_init)) by {
            assert forall|i: int, j: int| 0 <= i < j < one_init.len() implies tie_before(
                certificates,
                #[trigger] one_init[i],
                #[trigger] one_init[j],
            ) by {
                assert(tie_before(certificates, one[i], one[j]));
            }
        }
        assert(tie_sorted(certificates, other_init)) by {
            assert forall|i: int, j: int| 0 <= i < j < other_init.len() implies tie_before(
                certificates,
                #[trigger] other_init[i],
                #[trigger] other_init[j],
            ) by {
                assert(tie_before(certificates, other[i], other[j]));
            }
        }
        lemma_take_next(one, n);
        lemma_take_next(other, n);
        assert(one.take(n) =~= one_init && other.take(n) =~= other_init);
        assert(one.take(n + 1) =~= one && other.take(n + 1) =~= other);
        assert(one_init.to_set() =~= one.to_set().remove(a));
        assert(other_init.to_set() =~= other.to_set().remove(a));
        lemma_sorted_once(certificates, one_init, other_init);
        assert(one =~= one_init.push(a));
        assert(other =~= other_init.push(a));
    } else {
        assert(one =~= other);
    }
}

/// Swapping the vertices of a pair flips the verdict.
pub proof fn lemma_verdict_flips(s: Snapshot, a: Digest, b: Digest)
    ensures
        s.verdict(b, a) == flipped(s.verdict(a, b)),
{
}

/// What the pairs are: two vertices in the order of their places.
pub proof fn lemma_pairs_before(nodes: Seq<Digest>, i: int, p: (Digest, Digest))
    requires
        0 <= i <= nodes.len(),
    ensures
        pairs_before(nodes, i).contains(p) <==> exists|a: int, b: int|
            0 <= a < i && a < b < nodes.len() && p == (#[trigger] nodes[a], #[trigger] nodes[b]),
    decreases i,
{
    if i > 0 {
        let front = pairs_before(nodes, i - 1);
        let row = pair_row(nodes, i - 1);
        let all = pairs_before(nodes, i);
        lemma_pairs_before(nodes, i - 1, p);
        if all.contains(p) {
            let k = all.index_of(p);
            if k < front.len() {
                assert(front[k] == p);
            } else {
                let m = k - front.len();
                assert(row[m] == p);
                assert(p == (nodes[i - 1], nodes[i + m]));
            }
        }
        if exists|a: int, b: int|
            0 <= a < i && a < b < nodes.len() && p == (#[trigger] nodes[a], #[trigger] nodes[b]) {
            let (a, b) = choose|a: int, b: int|
                0 <= a < i && a < b < nodes.len() && p == (#[trigger] nodes[a], #[trigger] nodes[b]);
            if a < i - 1 {
                assert(front.contains(p));
                let k = front.index_of(p);
                assert(all[k] == p);
            } else {
                assert(row[b - i] == p);
                assert(all[front.len() + b - i] == p);
            }
        }
    }
}

/// Any two different vertices make up a pair, one way round.
pub proof fn lemma_all_pairs(nodes: Seq<Digest>, x: Digest, y: Digest)
    requires
        nodes.no_duplicates(),
    ensures
        nodes.contains(x) && nodes.contains(y) && x != y <==> all_pairs(nodes).contains((x, y))
            || all_pairs(nodes).contains((y, x)),
{
    let n = nodes.len() as int;
    lemma_pairs_before(nodes, n, (x, y));
    lemma_pairs_before(nodes, n, (y, x));
    if nodes.contains(x) && nodes.contains(y) && x != y {
        let i = nodes.index_of(x);
        let j = nodes.index_of(y);
        assert(nodes[i] == x && nodes[j] == y);
    }
}

/// There are `n (n - 1) / 2` pairs of `n` vertices.
pub proof fn lemma_pair_count(nodes: Seq<Digest>)
    ensures
        2 * all_pairs(nodes).len() == nodes.len() * (nodes.len() - 1),
{
    lemma_pairs_before_len(nodes, nodes.len() as int);
    let n = nodes.len() as int;
    assert(n * (2 * n - n - 1) == n * (n - 1)) by (nonlinear_arith);
}

proof fn lemma_pairs_before_len(nodes: Seq<Digest>, i: int)
    requires
        0 <= i <= nodes.len(),
    ensures
        2 * pairs_before(nodes, i).len() == i * (2 * nodes.len() - i - 1),
    decreases i,
{
    let n = nodes.len() as int;
    if i > 0 {
        lemma_pairs_before_len(nodes, i - 1);
        assert((i - 1) * (2 * n - (i - 1) - 1) + 2 * (n - i) == i * (2 * n - i - 1))
            by (nonlinear_arith);
    } else {
        assert(i * (2 * n - i - 1) == 0) by (nonlinear_arith)
            requires
                i == 0,
        ;
    }
}

/// Causal edges go up in rounds, so they form no cycle.
pub proof fn lemma_causal_acyclic(s: Snapshot, nodes: Set<Digest>)
    ensures
        acyclic(s.causal_edges(nodes)),
{
    let edges = s.causal_edges(nodes);
    assert forall|x: Digest| !#[trigger] reach_plus(edges, x, x) by {
        if reach_plus(edges, x, x) {
            let z = choose|z: Digest| #[trigger] edges.contains((x, z)) && reach(edges, z, x);
            let above = Set::new(
                |y: Digest| s.certificates[y].round >= s.certificates[z].round,
            );
            assert(closed_under(edges, above));
            lemma_reach_stays(edges, above, z, x);
        }
    }
}

/// The resulting order of a slice.
#[derive(Debug)]
pub struct SliceOrdering {
    pub ordered_sccs: Vec<Vec<Digest>>,
    pub order: Vec<Digest>,
    pub metrics: OrderingMetrics,
}

/// What the pairs of a slice have yielded.
struct PairScan {
    graph: OrderedMap<Digest, OrderedSet<Digest>>,
    causal_edges: Vec<(Digest, Digest)>,
    ordering_edges: Vec<(Digest, Digest)>,
    incomparable_pairs: Vec<(Digest, Digest)>,
    eligible_pair_count: usize,
    ineligible_pair_count: usize,
    conflict_count: usize,
    no_signal_count: usize,
}

/// Whether the predicate does not depend on which vertex of the pair comes first.
pub open spec fn symmetric(keep: spec_fn((Digest, Digest)) -> bool) -> bool {
    forall|a: Digest, b: Digest| keep((a, b)) == #[trigger] keep((b, a))
}

/// Whether the pair is among the given ones, one way round.
pub open spec fn among(pairs: Seq<(Digest, Digest)>, pair: (Digest, Digest)) -> bool {
    pairs.contains(pair) || pairs.contains((pair.1, pair.0))
}

/// Restricts a predicate to the pairs that are not causally related.
pub open spec fn incomparable_and(s: Snapshot, keep: spec_fn((Digest, Digest)) -> bool) -> spec_fn(
    (Digest, Digest),
) -> bool {
    |p: (Digest, Digest)| !s.comparable(p.0, p.1) && keep(p)
}

/// Restricts a predicate to the pairs with a visibility edge.
pub open spec fn edge_and(s: Snapshot, keep: spec_fn((Digest, Digest)) -> bool) -> spec_fn(
    (Digest, Digest),
) -> bool {
    |p: (Digest, Digest)| !s.comparable(p.0, p.1) && s.has_edge(p) && keep(p)
}

impl PairScan {
    #[verifier::opaque]
    spec fn inv(self, s: Snapshot, nodes: Set<Digest>, done: Seq<(Digest, Digest)>) -> bool {
        &&& self.graph@.dom() == nodes
        &&& forall|e: (Digest, Digest)| #[trigger]
            graph_edges(self.graph@).contains(e) <==> among(done, e) && (s.causal(e.0, e.1)
                || s.visible_first(e.0, e.1))
        &&& forall|e: (Digest, Digest)| #[trigger]
            self.causal_edges@.contains(e) <==> among(done, e) && s.causal(e.0, e.1)
        &&& self.causal_edges@.len() == count_where(
            done,
            |p: (Digest, Digest)| s.comparable(p.0, p.1),
        )
        &&& forall|keep: spec_fn((Digest, Digest)) -> bool| #[trigger]
            count_where(self.incomparable_pairs@, keep) == count_where(
                done,
                incomparable_and(s, keep),
            )
        &&& forall|i: int|
            0 <= i < self.incomparable_pairs@.len() ==> done.contains(
                #[trigger] self.incomparable_pairs@[i],
            )
        &&& forall|keep: spec_fn((Digest, Digest)) -> bool|
            symmetric(keep) ==> #[trigger] count_where(self.ordering_edges@, keep) == count_where(
                done,
                edge_and(s, keep),
            )
        &&& forall|i: int|
            0 <= i < self.ordering_edges@.len() ==> among(done, #[trigger] self.ordering_edges@[i])
        &&& self.eligible_pair_count == count_where(
            done,
            |p: (Digest, Digest)|
                !s.comparable(p.0, p.1) && s.is_eligible(p.0) && s.is_eligible(p.1),
        )
        &&& self.ineligible_pair_count == count_where(
            done,
            |p: (Digest, Digest)|
                !s.comparable(p.0, p.1) && s.verdict(p.0, p.1) == PairVerdict::Ineligible,
        )
        &&& self.conflict_count == count_where(
            done,
            |p: (Digest, Digest)|
                !s.comparable(p.0, p.1) && s.verdict(p.0, p.1) == PairVerdict::Conflict,
        )
        &&& self.no_signal_count == count_where(
            done,
            |p: (Digest, Digest)|
                !s.comparable(p.0, p.1) && s.verdict(p.0, p.1) == PairVerdict::NoSignal,
        )
        &&& self.eligible_pair_count <= self.incomparable_pairs@.len()
        &&& self.ineligible_pair_count <= self.incomparable_pairs@.len()
        &&& self.conflict_count <= self.incomparable_pairs@.len()
        &&& self.no_signal_count <= self.incomparable_pairs@.len()
    }
}

proof fn lemma_push_contains<A>(items: Seq<A>, x: A)
    ensures
        forall|y: A| #[trigger] items.push(x).contains(y) <==> items.contains(y) || y == x,
{
    assert forall|y: A| #[trigger] items.push(x).contains(y) <==> items.contains(y) || y == x by {
        if items.contains(y) {
            assert(items.push(x)[items.index_of(y)] == y);
        }
        assert(items.push(x)[items.len() as int] == x);
    }
}

impl MrvExecutor {
    /// Takes one pair into account.
    fn scan_pair(
        &self,
        scan: &mut PairScan,
        a: Digest,
        b: Digest,
        eligible_a: bool,
        eligible_b: bool,
        Ghost(nodes): Ghost<Set<Digest>>,
        Ghost(done): Ghost<Seq<(Digest, Digest)>>,
    )
        requires
            old(scan).inv(self.snapshot(), nodes, done),
            a != b,
            nodes.contains(a),
            nodes.contains(b),
            self.store@.contains_key(a),
            self.store@.contains_key(b),
            eligible_a == self.snapshot().is_eligible(a),
            eligible_b == self.snapshot().is_eligible(b),
        ensures
            final(scan).inv(self.snapshot(), nodes, done.push((a, b))),
    {
        let ghost s = self.snapshot();
        let ghost before = *scan;
        let ghost now = done.push((a, b));
        proof {
            reveal(PairScan::inv);
            lemma_push_contains(done, (a, b));
            lemma_verdict_flips(s, a, b);
            lemma_count_push(done, |p: (Digest, Digest)| s.comparable(p.0, p.1), (a, b));
            lemma_count_push(
                done,
                |p: (Digest, Digest)|
                    !s.comparable(p.0, p.1) && s.is_eligible(p.0) && s.is_eligible(p.1),
                (a, b),
            );
            lemma_count_push(
                done,
                |p: (Digest, Digest)|
                    !s.comparable(p.0, p.1) && s.verdict(p.0, p.1) == PairVerdict::Ineligible,
                (a, b),
            );
            lemma_count_push(
                done,
                |p: (Digest, Digest)|
                    !s.comparable(p.0, p.1) && s.verdict(p.0, p.1) == PairVerdict::Conflict,
                (a, b),
            );
            lemma_count_push(
                done,
                |p: (Digest, Digest)|
                    !s.comparable(p.0, p.1) && s.verdict(p.0, p.1) == PairVerdict::NoSignal,
                (a, b),
            );
            assert forall|e: (Digest, Digest)| #[trigger] among(now, e) <==> among(done, e) || e == (
                a,
                b,
            ) || e == (b, a) by {
                assert((e.1, e.0) == (a, b) <==> e == (b, a));
            }
            assert forall|keep: spec_fn((Digest, Digest)) -> bool| #[trigger]
                count_where(now, incomparable_and(s, keep)) == count_where(
                    done,
                    incomparable_and(s, keep),
                ) + if !s.comparable(a, b) && keep((a, b)) {
                    1nat
                } else {
                    0nat
                } by {
                lemma_count_push(done, incomparable_and(s, keep), (a, b));
            }
            assert forall|keep: spec_fn((Digest, Digest)) -> bool| #[trigger]
                count_where(now, edge_and(s, keep)) == count_where(done, edge_and(s, keep)) + if !s.comparable(
                    a,
                    b,
                ) && s.has_edge((a, b)) && keep((a, b)) {
                    1nat
                } else {
                    0nat
                } by {
                lemma_count_push(done, edge_and(s, keep), (a, b));
            }
            assert(!(s.causal(a, b) && s.causal(b, a)));
        }
        match self.causal_edge(&a, &b) {
            Some((from, to)) => {
                let _ = add_edge(&mut scan.graph, from, to);
                scan.causal_edges.push((from, to));
                proof {
                    lemma_push_contains(before.causal_edges@, (from, to));
                    assert(scan.graph@.dom() =~= nodes);
                    assert forall|i: int| 0 <= i < scan.incomparable_pairs@.len() implies now.contains(
                        #[trigger] scan.incomparable_pairs@[i],
                    ) by {
                        assert(done.contains(before.incomparable_pairs@[i]));
                    }
                    assert forall|i: int| 0 <= i < scan.ordering_edges@.len() implies among(
                        now,
                        #[trigger] scan.ordering_edges@[i],
                    ) by {
                        assert(among(done, before.ordering_edges@[i]));
                    }
                    assert forall|keep: spec_fn((Digest, Digest)) -> bool| #[trigger]
                        count_where(scan.incomparable_pairs@, keep) == count_where(
                            now,
                            incomparable_and(s, keep),
                        ) by {
                        assert(count_where(before.incomparable_pairs@, keep) == count_where(
                            done,
                            incomparable_and(s, keep),
                        ));
                    }
                    assert forall|keep: spec_fn((Digest, Digest)) -> bool|
                        symmetric(keep) implies #[trigger] count_where(scan.ordering_edges@, keep)
                        == count_where(now, edge_and(s, keep)) by {
                        assert(count_where(before.ordering_edges@, keep) == count_where(
                            done,
                            edge_and(s, keep),
                        ));
                    }
                }
                return;
            },
            None => {},
        }
        let verdict = self.compare_incomparable_pair(&a, &b, eligible_a, eligible_b);
        scan.incomparable_pairs.push((a, b));
        assert(scan.incomparable_pairs@.len() == scan.incomparable_pairs.len());
        if eligible_a && eligible_b {
            scan.eligible_pair_count = scan.eligible_pair_count + 1;
        }
        match verdict {
            PairVerdict::EdgeAToB => {
                let _ = add_edge(&mut scan.graph, a, b);
                scan.ordering_edges.push((a, b));
            },
            PairVerdict::EdgeBToA => {
                let _ = add_edge(&mut scan.graph, b, a);
                scan.ordering_edges.push((b, a));
            },
            PairVerdict::Ineligible => {
                scan.ineligible_pair_count = scan.ineligible_pair_count + 1;
            },
            PairVerdict::Conflict => {
                scan.conflict_count = scan.conflict_count + 1;
            },
            PairVerdict::NoSignal => {
                scan.no_signal_count = scan.no_signal_count + 1;
            },
        }
        proof {
            assert(!s.comparable(a, b) && !s.comparable(b, a));
            assert(verdict == s.verdict(a, b));
            assert(scan.graph@.dom() =~= nodes);
            lemma_push_contains(before.incomparable_pairs@, (a, b));
            assert forall|keep: spec_fn((Digest, Digest)) -> bool| #[trigger]
                count_where(scan.incomparable_pairs@, keep) == count_where(
                    now,
                    incomparable_and(s, keep),
                ) by {
                lemma_count_push(before.incomparable_pairs@, keep, (a, b));
                assert(count_where(before.incomparable_pairs@, keep) == count_where(
                    done,
                    incomparable_and(s, keep),
                ));
            }
            assert forall|i: int| 0 <= i < scan.incomparable_pairs@.len() implies now.contains(
                #[trigger] scan.incomparable_pairs@[i],
            ) by {
                if i < before.incomparable_pairs@.len() {
                    assert(done.contains(before.incomparable_pairs@[i]));
                }
            }
            assert forall|keep: spec_fn((Digest, Digest)) -> bool|
                symmetric(keep) implies #[trigger] count_where(scan.ordering_edges@, keep)
                == count_where(now, edge_and(s, keep)) by {
                assert(count_where(before.ordering_edges@, keep) == count_where(
                    done,
                    edge_and(s, keep),
                ));
                assert(keep((a, b)) == keep((b, a)));
                if verdict == PairVerdict::EdgeAToB {
                    lemma_count_push(before.ordering_edges@, keep, (a, b));
                } else if verdict == PairVerdict::EdgeBToA {
                    lemma_count_push(before.ordering_edges@, keep, (b, a));
                }
            }
            assert forall|i: int| 0 <= i < scan.ordering_edges@.len() implies among(
                now,
                #[trigger] scan.ordering_edges@[i],
            ) by {
                if i < before.ordering_edges@.len() {
                    assert(among(done, before.ordering_edges@[i]));
                }
            }
        }
    }

    /// Whether each vertex is eligible.
    fn eligibility(&self, nodes: &Vec<Digest>) -> (eligible: Vec<bool>)
        ensures
            eligible@.len() == nodes@.len(),
            forall|i: int|
                0 <= i < nodes@.len() ==> #[trigger] eligible@[i] == self.snapshot().is_eligible(nodes@[i]),
    {
        let mut eligible: Vec<bool> = Vec::new();
        let mut i: usize = 0;
        while i < nodes.len()
            invariant
                i <= nodes@.len(),
                eligible@.len() == i,
                forall|j: int|
                    0 <= j < i ==> #[trigger] eligible@[j] == self.snapshot().is_eligible(nodes@[j]),
            decreases nodes.len() - i,
        {
            eligible.push(self.is_eligible(&nodes[i]));
            i = i + 1;
        }
        eligible
    }

    /// Takes all pairs into account.
    fn scan_pairs(&self, nodes: &Vec<Digest>, eligible: &Vec<bool>) -> (scan: PairScan)
        requires
            nodes@.no_duplicates(),
            nodes@.to_set().subset_of(self.store@.dom()),
            eligible@.len() == nodes@.len(),
            forall|i: int|
                0 <= i < nodes@.len() ==> #[trigger] eligible@[i] == self.snapshot().is_eligible(nodes@[i]),
        ensures
            scan.inv(self.snapshot(), nodes@.to_set(), all_pairs(nodes@)),
    {
        let ghost s = self.snapshot();
        let ghost points = nodes@.to_set();
        let mut scan = PairScan {
            graph: edgeless(nodes),
            causal_edges: Vec::new(),
            ordering_edges: Vec::new(),
            incomparable_pairs: Vec::new(),
            eligible_pair_count: 0,
            ineligible_pair_count: 0,
            conflict_count: 0,
            no_signal_count: 0,
        };
        proof {
            reveal(PairScan::inv);
        }
        let count = nodes.len();
        let mut i: usize = 0;
        while i < count
            invariant
                i <= count,
                count == nodes@.len(),
                count == eligible@.len(),
                s == self.snapshot(),
                points == nodes@.to_set(),
                nodes@.no_duplicates(),
                points.subset_of(self.store@.dom()),
                forall|k: int|
                    0 <= k < nodes@.len() ==> #[trigger] eligible@[k] == s.is_eligible(nodes@[k]),
                scan.inv(s, points, pairs_before(nodes@, i as int)),
            decreases count - i,
        {
            let ghost front = pairs_before(nodes@, i as int);
            let ghost row = pair_row(nodes@, i as int);
            let mut j: usize = i + 1;
            assert(front + row.take(0) =~= front);
            while j < count
                invariant
                    i < j <= count,
                    count == nodes@.len(),
                    count == eligible@.len(),
                    s == self.snapshot(),
                    points == nodes@.to_set(),
                    nodes@.no_duplicates(),
                    points.subset_of(self.store@.dom()),
                    forall|k: int|
                        0 <= k < nodes@.len() ==> #[trigger] eligible@[k] == s.is_eligible(nodes@[k]),
                    row == pair_row(nodes@, i as int),
                    scan.inv(s, points, front + row.take(j - i - 1)),
                decreases count - j,
            {
                let a = nodes[i];
                let b = nodes[j];
                proof {
                    assert(points.contains(nodes@[i as int]) && points.contains(nodes@[j as int]));
                    assert(self.store@.dom().contains(a) && self.store@.dom().contains(b));
                    assert(row[j - i - 1] == (a, b));
                    assert((front + row.take(j - i - 1)).push((a, b)) =~= front + row.take(j - i));
                }
                self.scan_pair(
                    &mut scan,
                    a,
                    b,
                    eligible[i],
                    eligible[j],
                    Ghost(points),
                    Ghost(front + row.take(j - i - 1)),
                );
                j = j + 1;
            }
            assert(row.take(count - i - 1) =~= row);
            i = i + 1;
        }
        scan
    }
}

/// How many vertices the lists that satisfy the predicate hold together.
pub open spec fn total_length(parts: Seq<Seq<Digest>>, keep: spec_fn(Seq<Digest>) -> bool) -> nat
    decreases parts.len(),
{
    if parts.len() == 0 {
        0
    } else {
        total_length(parts.drop_last(), keep) + if keep(parts.last()) {
            parts.last().len()
        } else {
            0
        }
    }
}

/// The length of the longest list.
pub open spec fn largest(parts: Seq<Seq<Digest>>) -> nat
    decreases parts.len(),
{
    if parts.len() == 0 {
        0
    } else if parts.last().len() > largest(parts.drop_last()) {
        parts.last().len()
    } else {
        largest(parts.drop_last())
    }
}

/// Whether the graph orders the pair: a path leads from one vertex to the other, but not back.
pub open spec fn ordered_by_graph(edges: Set<(Digest, Digest)>, pair: (Digest, Digest)) -> bool {
    !connected(edges, pair.0, pair.1) && (reach(edges, pair.0, pair.1) || reach(
        edges,
        pair.1,
        pair.0,
    ))
}

/// What is counted while the vertices of a slice are ordered.
pub open spec fn slice_metrics(
    s: Snapshot,
    base: Seq<Digest>,
    components: Seq<Seq<Digest>>,
    order: Seq<Digest>,
    metrics: OrderingMetrics,
) -> bool {
    let n = base.len() as int;
    let nodes = by_key(s.certificates, base.to_set());
    let pairs = all_pairs(nodes);
    let edges = s.edges(base.to_set());
    let moves = displacements(base, order);
    &&& metrics.eligible_vertex_count == count_where(nodes, |x: Digest| s.is_eligible(x))
    &&& metrics.ineligible_vertex_count == count_where(nodes, |x: Digest| !s.is_eligible(x))
    &&& metrics.all_pair_count == (if n * (n - 1) <= usize::MAX {
        n * (n - 1) / 2
    } else {
        usize::MAX as int / 2
    })
    &&& metrics.causal_pair_count == count_where(
        pairs,
        |p: (Digest, Digest)| s.comparable(p.0, p.1),
    )
    &&& metrics.incomparable_pair_count == count_where(
        pairs,
        incomparable_and(s, |p: (Digest, Digest)| true),
    )
    &&& metrics.eligible_pair_count == count_where(
        pairs,
        |p: (Digest, Digest)|
            !s.comparable(p.0, p.1) && s.is_eligible(p.0) && s.is_eligible(p.1),
    )
    &&& metrics.ineligible_pair_count == count_where(
        pairs,
        |p: (Digest, Digest)|
            !s.comparable(p.0, p.1) && s.verdict(p.0, p.1) == PairVerdict::Ineligible,
    )
    &&& metrics.edge_count == count_where(pairs, edge_and(s, |p: (Digest, Digest)| true))
    &&& metrics.conflict_count == count_where(
        pairs,
        |p: (Digest, Digest)|
            !s.comparable(p.0, p.1) && s.verdict(p.0, p.1) == PairVerdict::Conflict,
    )
    &&& metrics.no_signal_count == count_where(
        pairs,
        |p: (Digest, Digest)|
            !s.comparable(p.0, p.1) && s.verdict(p.0, p.1) == PairVerdict::NoSignal,
    )
    &&& metrics.intra_scc_ordering_edge_count == count_where(
        pairs,
        edge_and(s, |p: (Digest, Digest)| connected(edges, p.0, p.1)),
    )
    &&& metrics.inter_scc_ordering_edge_count == count_where(
        pairs,
        edge_and(s, |p: (Digest, Digest)| !connected(edges, p.0, p.1)),
    )
    &&& metrics.constrained_pair_count == count_where(
        pairs,
        incomparable_and(s, |p: (Digest, Digest)| ordered_by_graph(edges, p)),
    )
    &&& metrics.scc_count == components.len()
    &&& metrics.nontrivial_scc_count == count_where(
        components,
        |component: Seq<Digest>| component.len() > 1,
    )
    &&& metrics.vertices_in_nontrivial_sccs == total_length(
        components,
        |component: Seq<Digest>| component.len() > 1,
    )
    &&& metrics.max_scc_size == largest(components)
    &&& metrics.incomparable_pair_inversion_count == count_where(
        pairs,
        incomparable_and(s, |p: (Digest, Digest)| inverted(base, order, p)),
    )
    &&& metrics.constrained_inversion_count == count_where(
        pairs,
        incomparable_and(
            s,
            |p: (Digest, Digest)| inverted(base, order, p) && ordered_by_graph(edges, p),
        ),
    )
    &&& metrics.unconstrained_inversion_count == count_where(
        pairs,
        incomparable_and(
            s,
            |p: (Digest, Digest)| inverted(base, order, p) && !ordered_by_graph(edges, p),
        ),
    )
    &&& metrics.moved_vertex_count == count_where(
        base,
        |x: Digest| position(base, x) != position(order, x),
    )
    &&& metrics.unchanged_slice == (base == order)
    &&& metrics.position_displacement_denominator == (if n <= 2 {
        1
    } else {
        n - 1
    })
    &&& n > 0 ==> {
        &&& is_kth_smallest(moves, (n - 1) / 2, metrics.position_displacement_median_low)
        &&& is_kth_smallest(moves, n / 2, metrics.position_displacement_median_high)
        &&& is_kth_smallest(moves, (95 * n + 99) / 100 - 1, metrics.position_displacement_p95)
    }
    &&& n == 0 ==> {
        &&& metrics.position_displacement_median_low == 0
        &&& metrics.position_displacement_median_high == 0
        &&& metrics.position_displacement_p95 == 0
    }
}

proof fn lemma_total_length_take(
    parts: Seq<Seq<Digest>>,
    keep: spec_fn(Seq<Digest>) -> bool,
    i: int,
)
    requires
        0 <= i < parts.len(),
    ensures
        total_length(parts.take(i + 1), keep) == total_length(parts.take(i), keep) + if keep(parts[i]) {
            parts[i].len()
        } else {
            0
        },
        largest(parts.take(i + 1)) == (if parts[i].len() > largest(parts.take(i)) {
            parts[i].len()
        } else {
            largest(parts.take(i))
        }),
{
    assert(parts.take(i + 1).drop_last() =~= parts.take(i));
}

proof fn lemma_total_length_bound(parts: Seq<Seq<Digest>>, keep: spec_fn(Seq<Digest>) -> bool, i: int)
    requires
        0 <= i <= parts.len(),
    ensures
        total_length(parts.take(i), keep) <= joined(parts).len(),
        largest(parts.take(i)) <= joined(parts).len(),
    decreases parts.len(),
{
    if i == parts.len() && i > 0 {
        lemma_total_length_bound(parts.drop_last(), keep, i - 1);
        assert(parts.take(i) =~= parts);
        assert(parts.drop_last().take(i - 1) =~= parts.drop_last());
    } else if i < parts.len() {
        lemma_total_length_bound(parts.drop_last(), keep, i);
        assert(parts.drop_last().take(i) =~= parts.take(i));
    }
}

/// Fills in what the components show.
fn count_components(components: &Vec<Vec<Digest>>, metrics: &mut OrderingMetrics)
    requires
        joined(lists(components@)).len() <= usize::MAX,
    ensures
        *final(metrics) == (OrderingMetrics {
            scc_count: final(metrics).scc_count,
            nontrivial_scc_count: final(metrics).nontrivial_scc_count,
            vertices_in_nontrivial_sccs: final(metrics).vertices_in_nontrivial_sccs,
            max_scc_size: final(metrics).max_scc_size,
            ..*old(metrics)
        }),
        final(metrics).scc_count == components@.len(),
        final(metrics).nontrivial_scc_count == count_where(
            lists(components@),
            |component: Seq<Digest>| component.len() > 1,
        ),
        final(metrics).vertices_in_nontrivial_sccs == total_length(
            lists(components@),
            |component: Seq<Digest>| component.len() > 1,
        ),
        final(metrics).max_scc_size == largest(lists(components@)),
{
    let ghost parts = lists(components@);
    let ghost nontrivial = |component: Seq<Digest>| component.len() > 1;
    let count = components.len();
    let mut nontrivial_count: usize = 0;
    let mut vertices: usize = 0;
    let mut max: usize = 0;
    let mut i: usize = 0;
    assert(parts.take(0) =~= Seq::<Seq<Digest>>::empty());
    while i < count
        invariant
            i <= count,
            count == components@.len(),
            parts == lists(components@),
            joined(parts).len() <= usize::MAX,
            nontrivial == (|component: Seq<Digest>| component.len() > 1),
            nontrivial_count == count_where(parts.take(i as int), nontrivial),
            nontrivial_count <= i,
            vertices == total_length(parts.take(i as int), nontrivial),
            max == largest(parts.take(i as int)),
        decreases count - i,
    {
        proof {
            assert(parts[i as int] == components@[i as int]@);
            lemma_count_take(parts, nontrivial, i as int);
            lemma_total_length_take(parts, nontrivial, i as int);
            lemma_total_length_bound(parts, nontrivial, i + 1);
        }
        let size = components[i].len();
        if size > 1 {
            nontrivial_count = nontrivial_count + 1;
            vertices = vertices + size;
        }
        if size > max {
            max = size;
        }
        i = i + 1;
    }
    assert(parts.take(count as int) =~= parts);
    metrics.scc_count = count;
    metrics.nontrivial_scc_count = nontrivial_count;
    metrics.vertices_in_nontrivial_sccs = vertices;
    metrics.max_scc_size = max;
}

/// How many of the edges stay within a component, and how many do not.
fn count_edges(ordering_edges: &Vec<(Digest, Digest)>, number: &OrderedMap<Digest, usize>) -> (counts: (
    usize,
    usize,
))
    requires
        forall|i: int|
            0 <= i < ordering_edges@.len() ==> number@.contains_key((#[trigger] ordering_edges@[i]).0)
                && number@.contains_key(ordering_edges@[i].1),
    ensures
        counts.0 == count_where(
            ordering_edges@,
            |e: (Digest, Digest)| number@[e.0] == number@[e.1],
        ),
        counts.1 == count_where(
            ordering_edges@,
            |e: (Digest, Digest)| number@[e.0] != number@[e.1],
        ),
{
    let ghost inside = |e: (Digest, Digest)| number@[e.0] == number@[e.1];
    let ghost outside = |e: (Digest, Digest)| number@[e.0] != number@[e.1];
    let size = ordering_edges.len();
    let mut intra: usize = 0;
    let mut inter: usize = 0;
    let mut i: usize = 0;
    while i < size
        invariant
            i <= size,
            size == ordering_edges@.len(),
            forall|j: int|
                0 <= j < ordering_edges@.len() ==> number@.contains_key(
                    (#[trigger] ordering_edges@[j]).0,
                ) && number@.contains_key(ordering_edges@[j].1),
            inside == (|e: (Digest, Digest)| number@[e.0] == number@[e.1]),
            outside == (|e: (Digest, Digest)| number@[e.0] != number@[e.1]),
            intra == count_where(ordering_edges@.take(i as int), inside),
            inter == count_where(ordering_edges@.take(i as int), outside),
            intra <= i,
            inter <= i,
        decreases size - i,
    {
        let (from, to) = ordering_edges[i];
        proof {
            assert(ordering_edges@[i as int] == (from, to));
            lemma_count_take(ordering_edges@, inside, i as int);
            lemma_count_take(ordering_edges@, outside, i as int);
        }
        if *number.get(&from).unwrap() == *number.get(&to).unwrap() {
            intra = intra + 1;
        } else {
            inter = inter + 1;
        }
        i = i + 1;
    }
    assert(ordering_edges@.take(size as int) =~= ordering_edges@);
    (intra, inter)
}

/// How many of the flags are set.
fn count_set(flags: &Vec<bool>) -> (count: usize)
    ensures
        count == count_where(flags@, |flag: bool| flag),
        count <= flags@.len(),
{
    let ghost set = |flag: bool| flag;
    let size = flags.len();
    let mut count: usize = 0;
    let mut i: usize = 0;
    while i < size
        invariant
            i <= size,
            size == flags@.len(),
            set == (|flag: bool| flag),
            count == count_where(flags@.take(i as int), set),
            count <= i,
        decreases size - i,
    {
        proof {
            lemma_count_take(flags@, set, i as int);
        }
        if flags[i] {
            count = count + 1;
        }
        i = i + 1;
    }
    assert(flags@.take(size as int) =~= flags@);
    count
}

proof fn lemma_flags(nodes: Seq<Digest>, flags: Seq<bool>, keep: spec_fn(Digest) -> bool)
    requires
        nodes.len() == flags.len(),
        forall|i: int| 0 <= i < nodes.len() ==> #[trigger] flags[i] == keep(nodes[i]),
    ensures
        count_where(nodes, keep) == count_where(flags, |flag: bool| flag),
        count_where(nodes, |x: Digest| !keep(x)) == flags.len() - count_where(flags, |flag: bool| flag),
    decreases nodes.len(),
{
    if nodes.len() > 0 {
        let init = nodes.drop_last();
        let flags_init = flags.drop_last();
        assert forall|i: int| 0 <= i < init.len() implies #[trigger] flags_init[i] == keep(init[i]) by {
            assert(flags[i] == keep(nodes[i]));
        }
        assert(flags[nodes.len() - 1] == keep(nodes[nodes.len() - 1]));
        lemma_flags(init, flags_init, keep);
    }
}

/// The components of a pair reach each other just if its vertices do.
proof fn lemma_constrained(
    nodes: Set<Digest>,
    edges: Set<(Digest, Digest)>,
    number: Map<Digest, usize>,
    reachable: Seq<OrderedSet<usize>>,
    pair: (Digest, Digest),
)
    requires
        numbers_components(nodes, edges, number, reachable.len()),
        forall|a: Digest, b: Digest| #[trigger]
            edges.contains((a, b)) ==> nodes.contains(a) && nodes.contains(b),
        forall|i: usize, y: usize|
            i < reachable.len() ==> (#[trigger] reachable[i as int]@.contains(y) <==> reach_plus(
                condensed(edges, number),
                i,
                y,
            )),
        nodes.contains(pair.0),
        nodes.contains(pair.1),
    ensures
        pair_known(number, reachable, pair),
        pair_constrained(number, reachable, pair) == ordered_by_graph(edges, pair),
{
    let a = number[pair.0];
    let b = number[pair.1];
    let turned = condensed(edges, number);
    assert(number.dom().contains(pair.0) && number.dom().contains(pair.1));
    assert(a == b <==> connected(edges, pair.0, pair.1));
    lemma_condensed_reach(nodes, edges, number, reachable.len(), pair.0, pair.1);
    lemma_condensed_reach(nodes, edges, number, reachable.len(), pair.1, pair.0);
    if a != b {
        if reach(turned, a, b) {
            lemma_reach_is_reach_plus(turned, a, b);
        }
        if reach(turned, b, a) {
            lemma_reach_is_reach_plus(turned, b, a);
        }
        if reach_plus(turned, a, b) {
            lemma_reach_plus_is_reach(turned, a, b);
        }
        if reach_plus(turned, b, a) {
            lemma_reach_plus_is_reach(turned, b, a);
        }
        assert(reachable[a as int]@.contains(b) <==> reach_plus(turned, a, b));
        assert(reachable[b as int]@.contains(a) <==> reach_plus(turned, b, a));
    }
}

/// What the scan of all pairs has found.
proof fn lemma_scan_graph(s: Snapshot, nodes: Seq<Digest>, scan: PairScan)
    requires
        nodes.no_duplicates(),
        scan.inv(s, nodes.to_set(), all_pairs(nodes)),
    ensures
        graph_edges(scan.graph@) == s.edges(nodes.to_set()),
        scan.causal_edges@.to_set() == s.causal_edges(nodes.to_set()),
        graph_within(scan.graph@, nodes.to_set()),
        forall|i: int|
            0 <= i < scan.causal_edges@.len() ==> nodes.contains((#[trigger] scan.causal_edges@[i]).0)
                && nodes.contains(scan.causal_edges@[i].1),
        acyclic(causal_within(s.edges(nodes.to_set()), s.causal_edges(nodes.to_set()))),
{
    reveal(PairScan::inv);
    let points = nodes.to_set();
    let pairs = all_pairs(nodes);
    let edges = s.edges(points);
    assert forall|e: (Digest, Digest)| #[trigger] among(pairs, e) <==> points.contains(e.0)
        && points.contains(e.1) && e.0 != e.1 by {
        lemma_all_pairs(nodes, e.0, e.1);
    }
    assert forall|e: (Digest, Digest)| #[trigger]
        graph_edges(scan.graph@).contains(e) <==> edges.contains(e) by {
        assert(among(pairs, e) <==> points.contains(e.0) && points.contains(e.1) && e.0 != e.1);
    }
    assert(graph_edges(scan.graph@) =~= edges);
    assert forall|e: (Digest, Digest)| #[trigger]
        scan.causal_edges@.to_set().contains(e) <==> s.causal_edges(points).contains(e) by {
        assert(scan.causal_edges@.contains(e) <==> among(pairs, e) && s.causal(e.0, e.1));
        assert(among(pairs, e) <==> points.contains(e.0) && points.contains(e.1) && e.0 != e.1);
    }
    assert(scan.causal_edges@.to_set() =~= s.causal_edges(points));
    assert forall|e: (Digest, Digest)| #[trigger] graph_edges(scan.graph@).contains(e) implies points.contains(
        e.0,
    ) && points.contains(e.1) by {
        assert(edges.contains(e));
    }
    assert forall|i: int| 0 <= i < scan.causal_edges@.len() implies nodes.contains(
        (#[trigger] scan.causal_edges@[i]).0,
    ) && nodes.contains(scan.causal_edges@[i].1) by {
        let e = scan.causal_edges@[i];
        assert(scan.causal_edges@.to_set().contains(e));
        assert(points.contains(e.0) && points.contains(e.1));
    }
    lemma_causal_acyclic(s, points);
    lemma_acyclic_subset(causal_within(edges, s.causal_edges(points)), s.causal_edges(points));
}

/// Between which components the scan has found pairs and edges.
proof fn lemma_scan_pairs(
    s: Snapshot,
    nodes: Seq<Digest>,
    scan: PairScan,
    number: Map<Digest, usize>,
    reachable: Seq<OrderedSet<usize>>,
)
    requires
        nodes.no_duplicates(),
        scan.inv(s, nodes.to_set(), all_pairs(nodes)),
        numbers_components(nodes.to_set(), s.edges(nodes.to_set()), number, reachable.len()),
        forall|i: usize, y: usize|
            i < reachable.len() ==> (#[trigger] reachable[i as int]@.contains(y) <==> reach_plus(
                condensed(s.edges(nodes.to_set()), number),
                i,
                y,
            )),
    ensures
        forall|i: int|
            0 <= i < scan.incomparable_pairs@.len() ==> pair_known(
                number,
                reachable,
                #[trigger] scan.incomparable_pairs@[i],
            ) && nodes.contains(scan.incomparable_pairs@[i].0) && nodes.contains(
                scan.incomparable_pairs@[i].1,
            ) && pair_constrained(number, reachable, scan.incomparable_pairs@[i]) == ordered_by_graph(
                s.edges(nodes.to_set()),
                scan.incomparable_pairs@[i],
            ),
        forall|i: int|
            0 <= i < scan.ordering_edges@.len() ==> number.contains_key(
                (#[trigger] scan.ordering_edges@[i]).0,
            ) && number.contains_key(scan.ordering_edges@[i].1) && (number[scan.ordering_edges@[i].0]
                == number[scan.ordering_edges@[i].1] <==> connected(
                s.edges(nodes.to_set()),
                scan.ordering_edges@[i].0,
                scan.ordering_edges@[i].1,
            )),
{
    reveal(PairScan::inv);
    let points = nodes.to_set();
    let pairs = all_pairs(nodes);
    let edges = s.edges(points);
    assert forall|i: int| 0 <= i < scan.incomparable_pairs@.len() implies pair_known(
        number,
        reachable,
        #[trigger] scan.incomparable_pairs@[i],
    ) && nodes.contains(scan.incomparable_pairs@[i].0) && nodes.contains(
        scan.incomparable_pairs@[i].1,
    ) && pair_constrained(number, reachable, scan.incomparable_pairs@[i]) == ordered_by_graph(
        edges,
        scan.incomparable_pairs@[i],
    ) by {
        let p = scan.incomparable_pairs@[i];
        assert(pairs.contains(p));
        lemma_all_pairs(nodes, p.0, p.1);
        assert(points.contains(p.0) && points.contains(p.1));
        lemma_constrained(points, edges, number, reachable, p);
    }
    assert forall|i: int| 0 <= i < scan.ordering_edges@.len() implies number.contains_key(
        (#[trigger] scan.ordering_edges@[i]).0,
    ) && number.contains_key(scan.ordering_edges@[i].1) && (number[scan.ordering_edges@[i].0]
        == number[scan.ordering_edges@[i].1] <==> connected(
        edges,
        scan.ordering_edges@[i].0,
        scan.ordering_edges@[i].1,
    )) by {
        let e = scan.ordering_edges@[i];
        assert(among(pairs, e));
        lemma_all_pairs(nodes, e.0, e.1);
        assert(points.contains(e.0) && points.contains(e.1));
        assert(number.dom().contains(e.0) && number.dom().contains(e.1));
    }
}

/// What the scan has counted.
proof fn lemma_scan_counts(s: Snapshot, nodes: Seq<Digest>, scan: PairScan)
    requires
        scan.inv(s, nodes.to_set(), all_pairs(nodes)),
    ensures
        scan.causal_edges@.len() == count_where(
            all_pairs(nodes),
            |p: (Digest, Digest)| s.comparable(p.0, p.1),
        ),
        scan.incomparable_pairs@.len() == count_where(
            all_pairs(nodes),
            incomparable_and(s, |p: (Digest, Digest)| true),
        ),
        scan.eligible_pair_count == count_where(
            all_pairs(nodes),
            |p: (Digest, Digest)|
                !s.comparable(p.0, p.1) && s.is_eligible(p.0) && s.is_eligible(p.1),
        ),
        scan.ineligible_pair_count == count_where(
            all_pairs(nodes),
            |p: (Digest, Digest)|
                !s.comparable(p.0, p.1) && s.verdict(p.0, p.1) == PairVerdict::Ineligible,
        ),
        scan.ordering_edges@.len() == count_where(
            all_pairs(nodes),
            edge_and(s, |p: (Digest, Digest)| true),
        ),
        scan.conflict_count == count_where(
            all_pairs(nodes),
            |p: (Digest, Digest)|
                !s.comparable(p.0, p.1) && s.verdict(p.0, p.1) == PairVerdict::Conflict,
        ),
        scan.no_signal_count == count_where(
            all_pairs(nodes),
            |p: (Digest, Digest)|
                !s.comparable(p.0, p.1) && s.verdict(p.0, p.1) == PairVerdict::NoSignal,
        ),
{
    reveal(PairScan::inv);
    lemma_count_all(scan.incomparable_pairs@, |p: (Digest, Digest)| true);
    lemma_count_all(scan.ordering_edges@, |p: (Digest, Digest)| true);
    assert(symmetric(|p: (Digest, Digest)| true));
}

/// Counting among the pairs that are not causally related.
proof fn lemma_scan_incomparable(
    s: Snapshot,
    nodes: Seq<Digest>,
    scan: PairScan,
    found: spec_fn((Digest, Digest)) -> bool,
    keep: spec_fn((Digest, Digest)) -> bool,
)
    requires
        scan.inv(s, nodes.to_set(), all_pairs(nodes)),
        forall|i: int|
            0 <= i < scan.incomparable_pairs@.len() ==> found(#[trigger] scan.incomparable_pairs@[i])
                == keep(scan.incomparable_pairs@[i]),
    ensures
        count_where(scan.incomparable_pairs@, found) == count_where(
            all_pairs(nodes),
            incomparable_and(s, keep),
        ),
{
    reveal(PairScan::inv);
    lemma_count_same(scan.incomparable_pairs@, found, keep);
    assert(count_where(scan.incomparable_pairs@, keep) == count_where(
        all_pairs(nodes),
        incomparable_and(s, keep),
    ));
}

/// Counting among the pairs with a visibility edge.
proof fn lemma_scan_edges(
    s: Snapshot,
    nodes: Seq<Digest>,
    scan: PairScan,
    found: spec_fn((Digest, Digest)) -> bool,
    keep: spec_fn((Digest, Digest)) -> bool,
)
    requires
        scan.inv(s, nodes.to_set(), all_pairs(nodes)),
        symmetric(keep),
        forall|i: int|
            0 <= i < scan.ordering_edges@.len() ==> found(#[trigger] scan.ordering_edges@[i]) == keep(
                scan.ordering_edges@[i],
            ),
    ensures
        count_where(scan.ordering_edges@, found) == count_where(
            all_pairs(nodes),
            edge_and(s, keep),
        ),
{
    reveal(PairScan::inv);
    lemma_count_same(scan.ordering_edges@, found, keep);
    assert(count_where(scan.ordering_edges@, keep) == count_where(
        all_pairs(nodes),
        edge_and(s, keep),
    ));
}

/// The graph of the components leads to components only.
proof fn lemma_components_closed(
    nodes: Set<Digest>,
    edges: Set<(Digest, Digest)>,
    number: Map<Digest, usize>,
    count: nat,
    i: usize,
    y: usize,
)
    requires
        numbers_components(nodes, edges, number, count),
        forall|a: Digest, b: Digest| #[trigger]
            edges.contains((a, b)) ==> nodes.contains(a) && nodes.contains(b),
        i < count,
        reach(condensed(edges, number), i, y),
    ensures
        y < count,
{
    let turned = condensed(edges, number);
    let below = Set::new(|z: usize| z < count);
    assert(closed_under(turned, below)) by {
        assert forall|x: usize, z: usize| #[trigger]
            turned.contains((x, z)) && below.contains(x) implies below.contains(z) by {
            let (a, b) = choose|a: Digest, b: Digest| #[trigger]
                edges.contains((a, b)) && number[a] == x && number[b] == z;
            assert(nodes.contains(b));
        }
    }
    lemma_reach_stays(turned, below, i, y);
}

impl MrvExecutor {
    /// Counts what the pairs, the graph and the resulting order show.
    fn measure_slice(
        &self,
        members: &[Digest],
        nodes: &Vec<Digest>,
        eligible: &Vec<bool>,
        scan: &PairScan,
        linearization: &Linearization,
    ) -> (metrics: OrderingMetrics)
        requires
            members@.no_duplicates(),
            tie_sorted(self.certificates(), nodes@),
            nodes@.no_duplicates(),
            nodes@.to_set() == members@.to_set(),
            nodes@.len() == members@.len(),
            eligible@.len() == nodes@.len(),
            forall|i: int|
                0 <= i < nodes@.len() ==> #[trigger] eligible@[i] == self.snapshot().is_eligible(nodes@[i]),
            scan.inv(self.snapshot(), nodes@.to_set(), all_pairs(nodes@)),
            linearization.order@.to_set() == members@.to_set(),
            joined(lists(linearization.ordered_sccs@)).len() == members@.len(),
            numbers_components(
                members@.to_set(),
                self.snapshot().edges(members@.to_set()),
                linearization.node_to_component@,
                linearization.ordered_sccs@.len(),
            ),
            graph_edges(linearization.component_graph@) == condensed(
                self.snapshot().edges(members@.to_set()),
                linearization.node_to_component@,
            ),
            forall|i: usize| #[trigger]
                linearization.component_graph@.contains_key(i) <==> i
                    < linearization.ordered_sccs@.len(),
        ensures
            slice_metrics(
                self.snapshot(),
                members@,
                lists(linearization.ordered_sccs@),
                linearization.order@,
                metrics,
            ),
    {
        let ghost s = self.snapshot();
        let ghost points = members@.to_set();
        let ghost edges = s.edges(points);
        let ghost number = linearization.node_to_component@;
        let count = linearization.ordered_sccs.len();
        proof {
            assert forall|i: usize, y: usize|
                i < count && #[trigger] reach(
                    graph_edges(linearization.component_graph@),
                    i,
                    y,
                ) implies linearization.component_graph@.contains_key(y) by {
                lemma_components_closed(points, edges, number, count as nat, i, y);
            }
        }
        let reachability = Self::component_reachability(count, &linearization.component_graph);
        let ghost reachable = reachability@;
        proof {
            lemma_scan_pairs(s, nodes@, *scan, number, reachable);
        }
        let constrained = Self::count_constrained_pairs(
            &scan.incomparable_pairs,
            &linearization.node_to_component,
            &reachability,
        );
        let (intra, inter) = count_edges(&scan.ordering_edges, &linearization.node_to_component);
        let eligible_count = count_set(eligible);
        let vertices = members.len();
        let mut metrics = OrderingMetrics::default();
        metrics.eligible_vertex_count = eligible_count;
        metrics.ineligible_vertex_count = vertices - eligible_count;
        metrics.all_pair_count = saturating_product(vertices, vertices.saturating_sub(1)) / 2;
        metrics.causal_pair_count = scan.causal_edges.len();
        metrics.incomparable_pair_count = scan.incomparable_pairs.len();
        metrics.eligible_pair_count = scan.eligible_pair_count;
        metrics.ineligible_pair_count = scan.ineligible_pair_count;
        metrics.edge_count = scan.ordering_edges.len();
        metrics.conflict_count = scan.conflict_count;
        metrics.no_signal_count = scan.no_signal_count;
        metrics.intra_scc_ordering_edge_count = intra;
        metrics.inter_scc_ordering_edge_count = inter;
        metrics.constrained_pair_count = constrained;
        count_components(&linearization.ordered_sccs, &mut metrics);
        proof {
            assert forall|i: int| 0 <= i < scan.incomparable_pairs@.len() implies members@.contains(
                (#[trigger] scan.incomparable_pairs@[i]).0,
            ) && members@.contains(scan.incomparable_pairs@[i].1) && linearization.order@.contains(
                scan.incomparable_pairs@[i].0,
            ) && linearization.order@.contains(scan.incomparable_pairs@[i].1) by {
                let p = scan.incomparable_pairs@[i];
                assert(nodes@.to_set().contains(p.0) && nodes@.to_set().contains(p.1));
                assert(members@.to_set().contains(p.0) && members@.to_set().contains(p.1));
                assert(linearization.order@.to_set().contains(p.0));
                assert(linearization.order@.to_set().contains(p.1));
            }
        }
        let ghost before = metrics;
        self.collect_intervention_metrics(
            members,
            &linearization.order,
            &scan.incomparable_pairs,
            &linearization.node_to_component,
            &reachability,
            &mut metrics,
        );
        proof {
            let base = members@;
            let order = linearization.order@;
            lemma_by_key(s.certificates, nodes@);
            lemma_flags(nodes@, eligible@, |x: Digest| s.is_eligible(x));
            lemma_count_same(
                nodes@,
                |x: Digest| !(|x: Digest| s.is_eligible(x))(x),
                |x: Digest| !s.is_eligible(x),
            );
            lemma_scan_counts(s, nodes@, *scan);
            lemma_scan_edges(
                s,
                nodes@,
                *scan,
                |e: (Digest, Digest)| number[e.0] == number[e.1],
                |p: (Digest, Digest)| connected(edges, p.0, p.1),
            );
            lemma_scan_edges(
                s,
                nodes@,
                *scan,
                |e: (Digest, Digest)| number[e.0] != number[e.1],
                |p: (Digest, Digest)| !connected(edges, p.0, p.1),
            );
            lemma_scan_incomparable(
                s,
                nodes@,
                *scan,
                |p: (Digest, Digest)| pair_constrained(number, reachable, p),
                |p: (Digest, Digest)| ordered_by_graph(edges, p),
            );
            lemma_scan_incomparable(
                s,
                nodes@,
                *scan,
                |p: (Digest, Digest)| inverted(base, order, p),
                |p: (Digest, Digest)| inverted(base, order, p),
            );
            lemma_scan_incomparable(
                s,
                nodes@,
                *scan,
                |p: (Digest, Digest)|
                    inverted(base, order, p) && pair_constrained(number, reachable, p),
                |p: (Digest, Digest)| inverted(base, order, p) && ordered_by_graph(edges, p),
            );
            lemma_scan_incomparable(
                s,
                nodes@,
                *scan,
                |p: (Digest, Digest)|
                    inverted(base, order, p) && !pair_constrained(number, reachable, p),
                |p: (Digest, Digest)| inverted(base, order, p) && !ordered_by_graph(edges, p),
            );
        }
        metrics
    }

    /// Orders the vertices of a slice by the evidence at hand.
    pub fn order_slice(&self, members: &[Digest]) -> (ordering: SliceOrdering)
        requires
            members@.no_duplicates(),
            members@.to_set().subset_of(self.store@.dom()),
        ensures
            is_linearization(
                self.certificates(),
                members@.to_set(),
                self.snapshot().edges(members@.to_set()),
                self.snapshot().causal_edges(members@.to_set()),
                lists(ordering.ordered_sccs@),
                ordering.order@,
            ),
            ordering.order@.no_duplicates(),
            ordering.order@.to_set() == members@.to_set(),
            ordering.order@.len() == members@.len(),
            slice_metrics(
                self.snapshot(),
                members@,
                lists(ordering.ordered_sccs@),
                ordering.order@,
                ordering.metrics,
            ),
    {
        let nodes = self.sort_by_key(members);
        let eligible = self.eligibility(&nodes);
        let scan = self.scan_pairs(&nodes, &eligible);
        proof {
            lemma_scan_graph(self.snapshot(), nodes@, scan);
        }
        let linearization = self.linearize_graph(&nodes, &scan.graph, &scan.causal_edges);
        let metrics = self.measure_slice(members, &nodes, &eligible, &scan, &linearization);
        SliceOrdering {
            ordered_sccs: linearization.ordered_sccs,
            order: linearization.order,
            metrics,
        }
    }
}

/// The product, or the largest number there is.
fn saturating_product(a: usize, b: usize) -> (product: usize)
    ensures
        product == (if a * b <= usize::MAX {
            a * b
        } else {
            usize::MAX as int
        }),
{
    match a.checked_mul(b) {
        Some(product) => product,
        None => usize::MAX,
    }
}

} // verus!
