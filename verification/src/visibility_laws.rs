//! When a vertex is eligible, when one vertex leads another, and what comes of it.

use vstd::prelude::*;

use crate::ordering::Snapshot;
use crate::ordering_laws::{
    ancestry_steps, law_ancestry_walk_is_complete, law_visibility_walk_is_complete,
    parents_are_older,
};
use crate::relation::{
    closed_under, lemma_reach_edge, lemma_reach_join, lemma_reach_self, lemma_reach_stays, reach,
};
use crate::state::{Evidence, MrvExecutor};
use crate::types::{CertificateModel, Digest, PublicKey, Round};
use crate::visibility::{
    after_certificate, coexistence, crosses, eligible, later, pair_verdict, seen_at, with_seen,
    PairVerdict,
};

verus! {

/// A window of so many rounds ends so many rounds later, or with the last round there is.
pub proof fn law_windows_end(round: Round, window: Round)
    ensures
        round + window <= u64::MAX ==> later(round, window as int) == round + window,
        round + window > u64::MAX ==> later(round, window as int) == u64::MAX,
        round < u64::MAX ==> later(round, 1) == round + 1,
        later(u64::MAX, 1) == u64::MAX,
{
}

/// A creator has seen a vertex in a round just if the evidence lists the creator there.
pub proof fn law_seen(evidence: Map<Digest, Evidence>, d: Digest, r: Round, creator: PublicKey)
    ensures
        seen_at(evidence, d, r).contains(creator) <==> evidence.contains_key(d)
            && evidence[d].seen.contains_key(r) && evidence[d].seen[r].contains(creator),
        evidence.contains_key(d) && evidence[d].seen.contains_key(r) ==> seen_at(evidence, d, r)
            == evidence[d].seen[r],
        !(evidence.contains_key(d) && evidence[d].seen.contains_key(r)) ==> seen_at(
            evidence,
            d,
            r,
        ).len() == 0,
{
}

/// A vertex is eligible just if, in some round from its own on and at most a window later, at least
/// a quorum of creators has seen it.
pub proof fn law_eligible(
    evidence: Map<Digest, Evidence>,
    window: Round,
    quorum: nat,
    d: Digest,
)
    ensures
        eligible(evidence, window, quorum, d) <==> evidence.contains_key(d) && exists|r: Round| #[trigger]
            evidence[d].seen.contains_key(r) && evidence[d].round <= r && r - evidence[d].round
                <= window && evidence[d].seen[r].len() >= quorum,
{
    if eligible(evidence, window, quorum, d) {
        let r = choose|r: Round|
            evidence[d].round <= r <= later(evidence[d].round, window as int)
                && #[trigger] evidence[d].seen.contains_key(r) && evidence[d].seen[r].len()
                >= quorum;
        assert(evidence[d].seen.contains_key(r));
    }
    if evidence.contains_key(d) && exists|r: Round| #[trigger]
        evidence[d].seen.contains_key(r) && evidence[d].round <= r && r - evidence[d].round
            <= window && evidence[d].seen[r].len() >= quorum {
        let r = choose|r: Round| #[trigger]
            evidence[d].seen.contains_key(r) && evidence[d].round <= r && r - evidence[d].round
                <= window && evidence[d].seen[r].len() >= quorum;
        assert(evidence[d].seen.contains_key(r));
    }
}

/// In an executor for `n` creators, it takes `2f + 1` creators in one round of the window to make a
/// vertex eligible, with `f` a third of `n - 1`, rounded down: so many suffice, and fewer do not.
pub proof fn law_quorum_of_the_committee(
    executor: MrvExecutor,
    committee_size: usize,
    window: Round,
    evidence: Map<Digest, Evidence>,
    d: Digest,
    r: Round,
)
    requires
        executor.is_new(committee_size, window),
        committee_size > 0,
        evidence.contains_key(d),
        evidence[d].seen.contains_key(r),
        evidence[d].round <= r <= evidence[d].round + window,
    ensures
        evidence[d].seen[r].len() >= 2 * ((committee_size - 1) / 3) + 1 ==> eligible(
            evidence,
            executor@.window,
            executor@.quorum,
            d,
        ),
        (forall|q: Round| #[trigger]
            evidence[d].seen.contains_key(q) ==> evidence[d].seen[q].len() <= 2 * ((committee_size
                - 1) / 3)) ==> !eligible(evidence, executor@.window, executor@.quorum, d),
{
    law_eligible(evidence, window, executor@.quorum, d);
    assert(evidence[d].seen.contains_key(r));
}

/// Two vertices coexist from the later of their rounds on.
pub proof fn law_coexistence(evidence: Map<Digest, Evidence>, a: Digest, b: Digest)
    ensures
        coexistence(evidence, a, b) >= evidence[a].round,
        coexistence(evidence, a, b) >= evidence[b].round,
        coexistence(evidence, a, b) == evidence[a].round || coexistence(evidence, a, b)
            == evidence[b].round,
        coexistence(evidence, a, b) == coexistence(evidence, b, a),
{
}

/// A lead is a crossing: where, in a round after those of both vertices and at most a window after
/// the later of them, `a` has been seen by at least `theta` creators more than `b`, however many
/// have seen `b`, `a` crosses. The last round there is counts as coming after itself.
pub proof fn law_lead_crosses(
    evidence: Map<Digest, Evidence>,
    window: Round,
    theta: int,
    a: Digest,
    b: Digest,
    r: Round,
)
    requires
        evidence.contains_key(a),
        evidence[a].seen.contains_key(r),
        evidence[a].round < r && evidence[b].round < r || r == u64::MAX,
        r - evidence[a].round <= window || r - evidence[b].round <= window,
        evidence.contains_key(b) && evidence[b].seen.contains_key(r)
            ==> evidence[a].seen[r].len() >= evidence[b].seen[r].len() + theta,
        !(evidence.contains_key(b) && evidence[b].seen.contains_key(r))
            ==> evidence[a].seen[r].len() >= theta,
    ensures
        crosses(evidence, window, theta, a, b),
{
    assert(seen_at(evidence, a, r) == evidence[a].seen[r]);
    assert(seen_at(evidence, a, r).len() - seen_at(evidence, b, r).len() >= theta);
    assert(r <= later(coexistence(evidence, a, b), window as int));
}

/// A crossing is a lead: `a` crosses only where, in a round after those of both vertices (or in the
/// last there is) and at most a window after the later of them, it has been seen by at least
/// `theta` creators more than `b`.
pub proof fn law_crossing_is_a_lead(
    evidence: Map<Digest, Evidence>,
    window: Round,
    theta: int,
    a: Digest,
    b: Digest,
) -> (r: Round)
    requires
        theta > 0,
        crosses(evidence, window, theta, a, b),
    ensures
        evidence[a].round < r && evidence[b].round < r || r == u64::MAX,
        r - evidence[a].round <= window || r - evidence[b].round <= window,
        evidence.contains_key(a),
        evidence[a].seen.contains_key(r),
        evidence.contains_key(b) && evidence[b].seen.contains_key(r)
            ==> evidence[a].seen[r].len() >= evidence[b].seen[r].len() + theta,
        !(evidence.contains_key(b) && evidence[b].seen.contains_key(r))
            ==> evidence[a].seen[r].len() >= theta,
{
    let start = coexistence(evidence, a, b);
    let r = choose|r: Round|
        later(start, 1) <= r <= later(start, window as int) && (#[trigger] seen_at(
            evidence,
            a,
            r,
        )).len() - seen_at(evidence, b, r).len() >= theta;
    r
}

/// The verdict on a pair of eligible vertices of which there is evidence: an edge from the one that
/// alone crosses, a conflict where both do, and no signal where neither does. Where one of them is
/// not eligible, or there is no evidence of it, the pair is ineligible, and else it is not.
pub proof fn law_verdict(
    evidence: Map<Digest, Evidence>,
    window: Round,
    theta: int,
    a: Digest,
    b: Digest,
    eligible_a: bool,
    eligible_b: bool,
)
    ensures
        ({
            let verdict = pair_verdict(evidence, window, theta, a, b, eligible_a, eligible_b);
            let known = eligible_a && eligible_b && evidence.contains_key(a)
                && evidence.contains_key(b);
            let ab = crosses(evidence, window, theta, a, b);
            let ba = crosses(evidence, window, theta, b, a);
            &&& verdict == PairVerdict::Ineligible <==> !known
            &&& verdict == PairVerdict::EdgeAToB <==> known && ab && !ba
            &&& verdict == PairVerdict::EdgeBToA <==> known && ba && !ab
            &&& verdict == PairVerdict::Conflict <==> known && ab && ba
            &&& verdict == PairVerdict::NoSignal <==> known && !ab && !ba
        }),
{
}

/// A lead on one side decides: where two eligible vertices of which neither is an ancestor of the
/// other are compared, and in some round of the window after both exist `a` has been seen by at
/// least `theta` creators more than `b`, while in no round is `b` so far ahead of `a`, the verdict
/// is an edge from `a` to `b`, whichever is named first, and the graph of every slice that holds
/// both has that edge and not the opposite one.
pub proof fn law_one_sided_lead(s: Snapshot, nodes: Set<Digest>, a: Digest, b: Digest, r: Round)
    requires
        nodes.contains(a),
        nodes.contains(b),
        a != b,
        s.theta > 0,
        s.evidence.contains_key(a),
        s.evidence.contains_key(b),
        s.is_eligible(a),
        s.is_eligible(b),
        !s.causal(a, b),
        !s.causal(b, a),
        s.evidence[a].seen.contains_key(r),
        s.evidence[a].round < r,
        s.evidence[b].round < r,
        r - s.evidence[a].round <= s.window || r - s.evidence[b].round <= s.window,
        s.evidence[a].seen[r].len() >= s.theta + (if s.evidence[b].seen.contains_key(r) {
            s.evidence[b].seen[r].len()
        } else {
            0
        }),
        forall|q: Round| #[trigger]
            s.evidence[b].seen.contains_key(q) ==> s.evidence[b].seen[q].len() < s.theta + (
            if s.evidence[a].seen.contains_key(q) {
                s.evidence[a].seen[q].len()
            } else {
                0
            }),
    ensures
        s.verdict(a, b) == PairVerdict::EdgeAToB,
        s.verdict(b, a) == PairVerdict::EdgeBToA,
        s.edges(nodes).contains((a, b)),
        !s.edges(nodes).contains((b, a)),
{
    law_lead_crosses(s.evidence, s.window, s.theta, a, b, r);
    if crosses(s.evidence, s.window, s.theta, b, a) {
        let q = law_crossing_is_a_lead(s.evidence, s.window, s.theta, b, a);
        assert(s.evidence[b].seen.contains_key(q));
    }
}

/// Leads on both sides, in whatever rounds of the window, make a conflict: no edge either way.
pub proof fn law_leads_on_both_sides(
    s: Snapshot,
    nodes: Set<Digest>,
    a: Digest,
    b: Digest,
    r: Round,
    q: Round,
)
    requires
        s.theta > 0,
        s.evidence.contains_key(a),
        s.evidence.contains_key(b),
        s.is_eligible(a),
        s.is_eligible(b),
        !s.causal(a, b),
        !s.causal(b, a),
        s.evidence[a].round < r && s.evidence[b].round < r,
        s.evidence[a].round < q && s.evidence[b].round < q,
        r - s.evidence[a].round <= s.window || r - s.evidence[b].round <= s.window,
        q - s.evidence[a].round <= s.window || q - s.evidence[b].round <= s.window,
        s.evidence[a].seen.contains_key(r),
        s.evidence[b].seen.contains_key(q),
        s.evidence[a].seen[r].len() >= s.theta + (if s.evidence[b].seen.contains_key(r) {
            s.evidence[b].seen[r].len()
        } else {
            0
        }),
        s.evidence[b].seen[q].len() >= s.theta + (if s.evidence[a].seen.contains_key(q) {
            s.evidence[a].seen[q].len()
        } else {
            0
        }),
    ensures
        s.verdict(a, b) == PairVerdict::Conflict,
        !s.edges(nodes).contains((a, b)),
        !s.edges(nodes).contains((b, a)),
{
    law_lead_crosses(s.evidence, s.window, s.theta, a, b, r);
    law_lead_crosses(s.evidence, s.window, s.theta, b, a, q);
}

/// Without a lead on either side there is no signal, and no edge.
pub proof fn law_no_lead(s: Snapshot, nodes: Set<Digest>, a: Digest, b: Digest)
    requires
        s.theta > 0,
        s.evidence.contains_key(a),
        s.evidence.contains_key(b),
        s.is_eligible(a),
        s.is_eligible(b),
        !s.causal(a, b),
        !s.causal(b, a),
        forall|q: Round| #[trigger]
            s.evidence[a].seen.contains_key(q) ==> s.evidence[a].seen[q].len() < s.theta + (
            if s.evidence[b].seen.contains_key(q) {
                s.evidence[b].seen[q].len()
            } else {
                0
            }),
        forall|q: Round| #[trigger]
            s.evidence[b].seen.contains_key(q) ==> s.evidence[b].seen[q].len() < s.theta + (
            if s.evidence[a].seen.contains_key(q) {
                s.evidence[a].seen[q].len()
            } else {
                0
            }),
    ensures
        s.verdict(a, b) == PairVerdict::NoSignal,
        !s.edges(nodes).contains((a, b)),
        !s.edges(nodes).contains((b, a)),
{
    if crosses(s.evidence, s.window, s.theta, a, b) {
        let q = law_crossing_is_a_lead(s.evidence, s.window, s.theta, a, b);
        assert(s.evidence[a].seen.contains_key(q));
    }
    if crosses(s.evidence, s.window, s.theta, b, a) {
        let q = law_crossing_is_a_lead(s.evidence, s.window, s.theta, b, a);
        assert(s.evidence[b].seen.contains_key(q));
    }
}

/// The graph of a slice holds an edge just between two of its vertices, and just where the first is
/// an ancestor of the second, or where the two are not related and the verdict favours the first.
pub proof fn law_ordering_graph(s: Snapshot, nodes: Set<Digest>, a: Digest, b: Digest)
    requires
        parents_are_older(s.certificates),
        forall|d: Digest| #[trigger] nodes.contains(d) ==> s.certificates.contains_key(d),
    ensures
        s.causal_edges(nodes).contains((a, b)) <==> nodes.contains(a) && nodes.contains(b) && a != b
            && reach(ancestry_steps(s.certificates), b, a),
        s.edges(nodes).contains((a, b)) <==> nodes.contains(a) && nodes.contains(b) && a != b && (
        reach(ancestry_steps(s.certificates), b, a) || (!reach(
            ancestry_steps(s.certificates),
            a,
            b,
        ) && pair_verdict(
            s.evidence,
            s.window,
            s.theta,
            a,
            b,
            eligible(s.evidence, s.window, s.quorum, a),
            eligible(s.evidence, s.window, s.quorum, b),
        ) == PairVerdict::EdgeAToB)),
{
    if nodes.contains(a) && nodes.contains(b) {
        law_ancestry_walk_is_complete(s.certificates, a, b);
        law_ancestry_walk_is_complete(s.certificates, b, a);
    }
}

/// Parents lead down from one vertex to another just if they do so step by step: a vertex leads to
/// itself and to its parents, what it leads to leads on, and nothing else is reached: any set that
/// holds the vertex and with every certificate its parents holds all that is reached.
pub proof fn law_ancestry(
    certificates: Map<Digest, CertificateModel>,
    a: Digest,
    b: Digest,
    c: Digest,
    all: Set<Digest>,
)
    ensures
        reach(ancestry_steps(certificates), a, a),
        certificates.contains_key(a) && certificates[a].parents.contains(b) ==> reach(
            ancestry_steps(certificates),
            a,
            b,
        ),
        reach(ancestry_steps(certificates), a, b) && reach(ancestry_steps(certificates), b, c)
            ==> reach(ancestry_steps(certificates), a, c),
        all.contains(a) && (forall|x: Digest, y: Digest|
            certificates.contains_key(x) && all.contains(x)
                && #[trigger] certificates[x].parents.contains(y) ==> all.contains(y)) && reach(
            ancestry_steps(certificates),
            a,
            b,
        ) ==> all.contains(b),
{
    let steps = ancestry_steps(certificates);
    lemma_reach_self(steps, a);
    if certificates.contains_key(a) && certificates[a].parents.contains(b) {
        assert(steps.contains((a, b)));
        lemma_reach_edge(steps, a, b);
    }
    if reach(steps, a, b) && reach(steps, b, c) {
        lemma_reach_join(steps, a, b, c);
    }
    if all.contains(a) && (forall|x: Digest, y: Digest|
        certificates.contains_key(x) && all.contains(x)
            && #[trigger] certificates[x].parents.contains(y) ==> all.contains(y)) && reach(
        steps,
        a,
        b,
    ) {
        assert(closed_under(steps, all)) by {
            assert forall|x: Digest, y: Digest| #[trigger]
                steps.contains((x, y)) && all.contains(x) implies all.contains(y) by {
                assert(certificates[x].parents.contains(y));
            }
        }
        lemma_reach_stays(steps, all, a, b);
    }
}

/// What a creator has seen is recorded once, in the round in which it was seen, and nowhere else.
pub proof fn law_observation(
    evidence: Evidence,
    round: Round,
    creator: PublicKey,
    r: Round,
    other: PublicKey,
)
    ensures
        ({
            let after = with_seen(evidence, round, creator);
            &&& after.round == evidence.round
            &&& after.seen.contains_key(r) <==> evidence.seen.contains_key(r) || r == round
            &&& after.seen.contains_key(r) ==> (after.seen[r].contains(other)
                <==> evidence.seen.contains_key(r) && evidence.seen[r].contains(other) || r == round
                && other == creator)
        }),
{
}

/// A certificate adds its creator, in its round, to the evidence of just those vertices that it
/// makes visible; no evidence comes or goes.
pub proof fn law_certificate_marks_what_it_sees(
    certificates: Map<Digest, CertificateModel>,
    evidence: Map<Digest, Evidence>,
    floor: Round,
    certificate: Digest,
    round: Round,
    creator: PublicKey,
    d: Digest,
    r: Round,
    other: PublicKey,
)
    requires
        evidence.contains_key(d),
        parents_are_older(certificates),
        certificates.contains_key(certificate),
        certificates.contains_key(d),
        certificates[d].round >= floor,
    ensures
        ({
            let after = after_certificate(
                certificates,
                evidence,
                floor,
                certificate,
                round,
                creator,
            );
            &&& after.dom() == evidence.dom()
            &&& after[d].round == evidence[d].round
            &&& seen_at(after, d, r).contains(other) <==> seen_at(evidence, d, r).contains(other)
                || r == round && other == creator && reach(
                ancestry_steps(certificates),
                certificate,
                d,
            )
        }),
{
    law_visibility_walk_is_complete(certificates, floor, certificate, d);
    let after = after_certificate(certificates, evidence, floor, certificate, round, creator);
    assert(after.dom() =~= evidence.dom());
}

} // verus!
