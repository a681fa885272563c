//! Ancestry, visibility evidence and the comparison of two vertices.

use vstd::prelude::*;

use crate::ordered::OrderedSet;
use crate::relation::{
    closed_under, reach, lemma_reach_append, lemma_reach_self, lemma_reach_stays,
};
use crate::state::{AufState, Evidence, MrvExecutor};
use crate::types::{CertificateModel, Digest, PublicKey, Round};

verus! {

/// What the evidence says of a pair of vertices that are not causally related.
#[derive(Clone, Copy, Debug, PartialEq, Eq, Structural)]
pub enum PairVerdict {
    EdgeAToB,
    EdgeBToA,
    Ineligible,
    Conflict,
    NoSignal,
}

/// The steps from a stored certificate above a round to its parents.
pub open spec fn parent_steps(
    certificates: Map<Digest, CertificateModel>,
    above: Round,
) -> Set<(Digest, Digest)> {
    Set::new(
        |e: (Digest, Digest)|
            certificates.contains_key(e.0) && certificates[e.0].round > above
                && certificates[e.0].parents.contains(e.1),
    )
}

/// Whether `ancestor` precedes `descendant` causally: it is of a lower round, and parents lead
/// down to it.
pub open spec fn causally_before(
    certificates: Map<Digest, CertificateModel>,
    ancestor: Digest,
    descendant: Digest,
) -> bool {
    &&& certificates[ancestor].round < certificates[descendant].round
    &&& reach(parent_steps(certificates, certificates[ancestor].round), descendant, ancestor)
}

/// Whether a new certificate makes `vertex` visible: the certificate is or descends from it, by
/// stored certificates of rounds not below `floor`.
pub open spec fn makes_visible(
    certificates: Map<Digest, CertificateModel>,
    floor: Round,
    certificate: Digest,
    vertex: Digest,
) -> bool {
    &&& reach(parent_steps(certificates, floor), certificate, vertex)
    &&& certificates.contains_key(vertex)
    &&& certificates[vertex].round >= floor
}

/// Evidence after a creator has seen the vertex in a round.
pub open spec fn with_seen(evidence: Evidence, round: Round, creator: PublicKey) -> Evidence {
    let creators = if evidence.seen.contains_key(round) {
        evidence.seen[round]
    } else {
        Set::<PublicKey>::empty()
    };
    Evidence { seen: evidence.seen.insert(round, creators.insert(creator)), ..evidence }
}

/// The evidence after a new certificate is taken into account.
pub open spec fn after_certificate(
    certificates: Map<Digest, CertificateModel>,
    evidence: Map<Digest, Evidence>,
    floor: Round,
    certificate: Digest,
    round: Round,
    creator: PublicKey,
) -> Map<Digest, Evidence> {
    Map::new(
        |d: Digest| evidence.contains_key(d),
        |d: Digest|
            if makes_visible(certificates, floor, certificate, d) {
                with_seen(evidence[d], round, creator)
            } else {
                evidence[d]
            },
    )
}

/// The creators that have seen the vertex in the round.
pub open spec fn seen_at(evidence: Map<Digest, Evidence>, vertex: Digest, round: Round) -> Set<
    PublicKey,
> {
    if evidence.contains_key(vertex) && evidence[vertex].seen.contains_key(round) {
        evidence[vertex].seen[round]
    } else {
        Set::empty()
    }
}

/// The round that lies `steps` after `round`, or the last round there is.
pub open spec fn later(round: Round, steps: int) -> int {
    if round + steps > Round::MAX {
        Round::MAX as int
    } else {
        round + steps
    }
}

/// Whether, in some round from that of the vertex to the end of its window, enough creators have
/// seen it.
pub open spec fn eligible(
    evidence: Map<Digest, Evidence>,
    window: Round,
    quorum: nat,
    vertex: Digest,
) -> bool {
    &&& evidence.contains_key(vertex)
    &&& exists|r: Round|
        evidence[vertex].round <= r <= later(evidence[vertex].round, window as int)
            && #[trigger] evidence[vertex].seen.contains_key(r) && evidence[vertex].seen[r].len()
            >= quorum
}

/// The first round in which two vertices exist.
pub open spec fn coexistence(evidence: Map<Digest, Evidence>, a: Digest, b: Digest) -> Round {
    if evidence[a].round >= evidence[b].round {
        evidence[a].round
    } else {
        evidence[b].round
    }
}

/// Whether, in some round of the window after both vertices exist, `a` is seen by at least `theta`
/// more creators than `b`.
pub open spec fn crosses(
    evidence: Map<Digest, Evidence>,
    window: Round,
    theta: int,
    a: Digest,
    b: Digest,
) -> bool {
    let start = coexistence(evidence, a, b);
    exists|r: Round|
        later(start, 1) <= r <= later(start, window as int) && (#[trigger] seen_at(
            evidence,
            a,
            r,
        )).len() - seen_at(evidence, b, r).len() >= theta
}

/// The verdict on a pair of vertices.
pub open spec fn pair_verdict(
    evidence: Map<Digest, Evidence>,
    window: Round,
    theta: int,
    a: Digest,
    b: Digest,
    eligible_a: bool,
    eligible_b: bool,
) -> PairVerdict {
    if !eligible_a || !eligible_b || !evidence.contains_key(a) || !evidence.contains_key(b) {
        PairVerdict::Ineligible
    } else {
        match (crosses(evidence, window, theta, a, b), crosses(evidence, window, theta, b, a)) {
            (true, false) => PairVerdict::EdgeAToB,
            (false, true) => PairVerdict::EdgeBToA,
            (true, true) => PairVerdict::Conflict,
            (false, false) => PairVerdict::NoSignal,
        }
    }
}

impl MrvExecutor {
    /// How many creators have seen the vertex in the round.
    pub fn seen_count_at(&self, digest: &Digest, round: Round) -> (count: usize)
        ensures
            count == seen_at(self.evidence(), *digest, round).len(),
    {
        match self.auf_states.get(digest) {
            Some(state) => match state.seen_by_round.get(&round) {
                Some(creators) => creators.len(),
                None => 0,
            },
            None => 0,
        }
    }

    /// Whether the vertex has been seen by enough creators within its window.
    pub fn is_eligible(&self, digest: &Digest) -> (yes: bool)
        ensures
            yes == eligible(
                self.evidence(),
                self.mrv_window,
                self.reach_threshold as nat,
                *digest,
            ),
    {
        let state = match self.auf_states.get(digest) {
            Some(state) => state,
            None => {
                return false;
            },
        };
        let end: Round = state.round.saturating_add(self.mrv_window);
        let count = state.seen_by_round.len();
        let ghost rounds = state.seen_by_round.key_seq();
        let ghost seen = self.evidence()[*digest].seen;
        let mut i: usize = 0;
        while i < count
            invariant
                i <= count,
                count == rounds.len(),
                rounds == state.seen_by_round.key_seq(),
                seen == state@.seen,
                forall|j: int|
                    0 <= j < i ==> !(state.round <= #[trigger] rounds[j] <= end && seen[rounds[j]].len()
                        >= self.reach_threshold),
                self.evidence().contains_key(*digest),
                self.evidence()[*digest] == state@,
                end == later(state.round, self.mrv_window as int),
            decreases count - i,
        {
            let round = state.seen_by_round.key_at(i);
            let creators = state.seen_by_round.value_at(i);
            if state.round <= round && round <= end && creators.len() >= self.reach_threshold {
                assert(seen.contains_key(round));
                return true;
            }
            i = i + 1;
        }
        proof {
            assert forall|r: Round|
                state.round <= r <= end && #[trigger] seen.contains_key(r) implies seen[r].len()
                < self.reach_threshold by {
                assert(state.seen_by_round@.dom().contains(r));
                assert(rounds.to_set().contains(r));
                let j = rounds.index_of(r);
                assert(rounds[j] == r);
            }
        }
        false
    }

    /// Compares the visibility of two vertices over the whole window after both exist.
    pub fn compare_incomparable_pair(
        &self,
        a: &Digest,
        b: &Digest,
        eligible_a: bool,
        eligible_b: bool,
    ) -> (verdict: PairVerdict)
        ensures
            verdict == pair_verdict(
                self.evidence(),
                self.mrv_window,
                self.delta_threshold as int,
                *a,
                *b,
                eligible_a,
                eligible_b,
            ),
    {
        if !eligible_a || !eligible_b {
            return PairVerdict::Ineligible;
        }
        let state_a = match self.auf_states.get(a) {
            Some(state) => state,
            None => {
                return PairVerdict::Ineligible;
            },
        };
        let state_b = match self.auf_states.get(b) {
            Some(state) => state,
            None => {
                return PairVerdict::Ineligible;
            },
        };
        let coexistence_round: Round = if state_a.round >= state_b.round {
            state_a.round
        } else {
            state_b.round
        };
        let first_round: Round = coexistence_round.saturating_add(1);
        let last_round: Round = coexistence_round.saturating_add(self.mrv_window);
        let ghost evidence = self.evidence();
        let ghost theta = self.delta_threshold as int;
        proof {
            assert(evidence.contains_key(*a) && evidence.contains_key(*b));
            assert(coexistence_round == coexistence(evidence, *a, *b));
            assert(coexistence_round == coexistence(evidence, *b, *a));
        }
        let threshold: i128 = self.delta_threshold as i128;
        let mut pos_ab = false;
        let mut pos_ba = false;
        let mut round: Round = first_round;
        let mut more = first_round <= last_round;
        // Crossings are binary evidence: the whole window is inspected, and repeated crossings add
        // no weight.
        while more
            invariant
                evidence == self.evidence(),
                theta == self.delta_threshold,
                threshold == theta,
                first_round <= round,
                more ==> round <= last_round,
                !more ==> (round == last_round || first_round > last_round),
                pos_ab <==> exists|r: Round|
                    first_round <= r && (if more {
                        r < round
                    } else {
                        r <= last_round
                    }) && (#[trigger] seen_at(evidence, *a, r)).len() - seen_at(evidence, *b, r).len()
                        >= theta,
                pos_ba <==> exists|r: Round|
                    first_round <= r && (if more {
                        r < round
                    } else {
                        r <= last_round
                    }) && (#[trigger] seen_at(evidence, *b, r)).len() - seen_at(evidence, *a, r).len()
                        >= theta,
            decreases last_round - round + if more {
                1int
            } else {
                0int
            },
        {
            let count_a = self.seen_count_at(a, round);
            let count_b = self.seen_count_at(b, round);
            let delta: i128 = count_a as i128 - count_b as i128;
            let ghost pos_ab_before = pos_ab;
            let ghost pos_ba_before = pos_ba;
            if delta >= threshold {
                pos_ab = true;
            }
            if delta <= -threshold {
                pos_ba = true;
            }
            proof {
                let seen_a = seen_at(evidence, *a, round);
                let seen_b = seen_at(evidence, *b, round);
                assert(delta == seen_a.len() - seen_b.len());
                assert(pos_ab <==> pos_ab_before || seen_a.len() - seen_b.len() >= theta);
                assert(pos_ba <==> pos_ba_before || seen_b.len() - seen_a.len() >= theta);
            }
            if round < last_round {
                round = round + 1;
            } else {
                more = false;
            }
        }
        if pos_ab && pos_ba {
            PairVerdict::Conflict
        } else if pos_ab {
            PairVerdict::EdgeAToB
        } else if pos_ba {
            PairVerdict::EdgeBToA
        } else {
            PairVerdict::NoSignal
        }
    }

    /// Whether parents lead from the descendant down to the ancestor, by certificates above the
    /// round of the ancestor.
    pub fn is_ancestor(
        &self,
        ancestor: &Digest,
        descendant: &Digest,
        ancestor_round: Round,
    ) -> (yes: bool)
        ensures
            yes == reach(
                parent_steps(self.certificates(), ancestor_round),
                *descendant,
                *ancestor,
            ),
    {
        let ghost steps = parent_steps(self.certificates(), ancestor_round);
        let mut stack: Vec<Digest> = Vec::new();
        stack.push(*descendant);
        let mut visited: OrderedSet<Digest> = OrderedSet::new();
        let stored = self.store.len();
        proof {
            lemma_reach_self(steps, *descendant);
            assert(stack@[0] == *descendant);
            assert(stack@.contains(*descendant));
        }
        loop
            invariant
                steps == parent_steps(self.certificates(), ancestor_round),
                self.store@.dom().finite(),
                !visited@.contains(*ancestor),
                visited@.contains(*descendant) || stack@.contains(*descendant),
                forall|x: Digest| #[trigger] stack@.contains(x) ==> reach(steps, *descendant, x),
                forall|x: Digest| #[trigger] visited@.contains(x) ==> reach(steps, *descendant, x),
                forall|x: Digest, y: Digest| #[trigger]
                    steps.contains((x, y)) && visited@.contains(x) ==> visited@.contains(y)
                        || stack@.contains(y),
            ensures
                stack@.len() == 0,
            decreases self.store@.dom().difference(visited@).len(), stack@.len(),
        {
            let ghost stack_before = stack@;
            match stack.pop() {
                None => {
                    break;
                },
                Some(current) => {
                    proof {
                        assert(stack_before.last() == current);
                        assert(stack_before.contains(current));
                        assert forall|x: Digest| #[trigger] stack_before.contains(x) implies x == current
                            || stack@.contains(x) by {
                            let k = stack_before.index_of(x);
                            if k < stack@.len() {
                                assert(stack@[k] == x);
                            }
                        }
                        assert forall|x: Digest| #[trigger] stack@.contains(x) implies stack_before.contains(
                            x,
                        ) by {
                            assert(stack_before[stack@.index_of(x)] == x);
                        }
                    }
                    if current.same(ancestor) {
                        return true;
                    }
                    let ghost seen = visited@;
                    let fresh = visited.insert(current);
                    if !fresh {
                        assert(visited@ =~= seen);
                        continue;
                    }
                    let ghost popped = stack@;
                    match self.store.get(&current) {
                        Some(certificate) => {
                            if certificate.round > ancestor_round {
                                push_all(&mut stack, &certificate.parents);
                                proof {
                                    assert forall|x: Digest| #[trigger] stack@.contains(x) implies reach(
                                        steps,
                                        *descendant,
                                        x,
                                    ) by {
                                        if !popped.contains(x) {
                                            assert(steps.contains((current, x)));
                                            lemma_reach_append(steps, *descendant, current, x);
                                        }
                                    }
                                }
                            }
                        },
                        None => {},
                    }
                    proof {
                        assert forall|x: Digest, y: Digest| #[trigger]
                            steps.contains((x, y)) && visited@.contains(x) implies visited@.contains(y)
                            || stack@.contains(y) by {
                            if x != current {
                                assert(seen.contains(x));
                                assert(seen.contains(y) || stack_before.contains(y));
                            }
                        }
                        let left = self.store@.dom().difference(seen);
                        let left_now = self.store@.dom().difference(visited@);
                        if self.store@.contains_key(current) {
                            assert(left_now =~= left.remove(current));
                        } else {
                            assert(left_now =~= left);
                        }
                    }
                },
            }
        }
        proof {
            if reach(steps, *descendant, *ancestor) {
                assert(closed_under(steps, visited@));
                lemma_reach_stays(steps, visited@, *descendant, *ancestor);
            }
        }
        false
    }

    /// The causal edge between two slice members, from the older to the younger.
    pub fn causal_edge(&self, a: &Digest, b: &Digest) -> (edge: Option<(Digest, Digest)>)
        requires
            self.store@.contains_key(*a),
            self.store@.contains_key(*b),
        ensures
            edge == (if causally_before(self.certificates(), *a, *b) {
                Some((*a, *b))
            } else if causally_before(self.certificates(), *b, *a) {
                Some((*b, *a))
            } else {
                None
            }),
    {
        let round_a: Round = self.store.get(a).expect(
            "left slice member certificate missing from MRV store during causal comparison",
        ).round;
        let round_b: Round = self.store.get(b).expect(
            "right slice member certificate missing from MRV store during causal comparison",
        ).round;
        // Parents always have lower rounds, so only the older endpoint can be an ancestor.
        if round_a < round_b {
            if self.is_ancestor(a, b, round_a) {
                Some((*a, *b))
            } else {
                None
            }
        } else if round_b < round_a {
            if self.is_ancestor(b, a, round_b) {
                Some((*b, *a))
            } else {
                None
            }
        } else {
            None
        }
    }
}

/// Records that a creator has seen the vertex in a round.
fn observe(state: &mut AufState, round: Round, creator: PublicKey)
    ensures
        final(state)@ == with_seen(old(state)@, round, creator),
{
    let ghost before = state@;
    let known = match state.seen_by_round.get_mut(&round) {
        Some(creators) => {
            // A creator counts once in a round, however many paths lead to it.
            let _ = creators.insert(creator);
            true
        },
        None => false,
    };
    if !known {
        let mut creators = OrderedSet::new();
        let _ = creators.insert(creator);
        let _ = state.seen_by_round.insert(round, creators);
    }
    assert(state@.seen =~= with_seen(before, round, creator).seen);
}

impl MrvExecutor {
    /// The round below which ancestry is not walked for a certificate of the round.
    pub open spec fn walk_floor(self, round: Round) -> Round {
        match self.active_floor_round {
            Some(floor) => floor,
            None => round,
        }
    }

    /// Records that the author has seen, in the round, every active vertex that the certificate is
    /// or descends from.
    pub fn update_seen_for_new_certificate(
        &mut self,
        round: Round,
        author: PublicKey,
        digest: &Digest,
    )
        ensures
            final(self).evidence() == after_certificate(
                old(self).certificates(),
                old(self).evidence(),
                old(self).walk_floor(round),
                *digest,
                round,
                author,
            ),
            *final(self) == (MrvExecutor { auf_states: final(self).auf_states, ..*old(self) }),
    {
        let min_round: Round = match self.active_floor_round {
            Some(floor) => floor,
            None => round,
        };
        let ghost before = *self;
        let ghost certificates = self.certificates();
        let ghost evidence = self.evidence();
        let ghost steps = parent_steps(certificates, min_round);
        let ghost mut marked = Set::<Digest>::empty();
        let mut stack: Vec<Digest> = Vec::new();
        stack.push(*digest);
        let mut visited: OrderedSet<Digest> = OrderedSet::new();
        let stored = self.store.len();
        proof {
            lemma_reach_self(steps, *digest);
            assert(stack@[0] == *digest);
            assert(stack@.contains(*digest));
            assert(self.evidence() =~= marked_evidence(evidence, marked, round, author));
        }
        loop
            invariant
                *self == (MrvExecutor { auf_states: self.auf_states, ..before }),
                certificates == before.certificates(),
                evidence == before.evidence(),
                steps == parent_steps(certificates, min_round),
                self.store@.dom().finite(),
                self.evidence() == marked_evidence(evidence, marked, round, author),
                forall|x: Digest| #[trigger]
                    marked.contains(x) <==> visited@.contains(x) && certificates.contains_key(x)
                        && certificates[x].round >= min_round,
                visited@.contains(*digest) || stack@.contains(*digest),
                forall|x: Digest| #[trigger] stack@.contains(x) ==> reach(steps, *digest, x),
                forall|x: Digest| #[trigger] visited@.contains(x) ==> reach(steps, *digest, x),
                forall|x: Digest, y: Digest| #[trigger]
                    steps.contains((x, y)) && visited@.contains(x) ==> visited@.contains(y)
                        || stack@.contains(y),
            ensures
                stack@.len() == 0,
            decreases self.store@.dom().difference(visited@).len(), stack@.len(),
        {
            let ghost stack_before = stack@;
            match stack.pop() {
                None => {
                    break;
                },
                Some(current) => {
                    proof {
                        assert(stack_before.last() == current);
                        assert(stack_before.contains(current));
                        assert forall|x: Digest| #[trigger] stack_before.contains(x) implies x == current
                            || stack@.contains(x) by {
                            let k = stack_before.index_of(x);
                            if k < stack@.len() {
                                assert(stack@[k] == x);
                            }
                        }
                        assert forall|x: Digest| #[trigger] stack@.contains(x) implies stack_before.contains(
                            x,
                        ) by {
                            assert(stack_before[stack@.index_of(x)] == x);
                        }
                    }
                    let ghost seen = visited@;
                    let ghost marked_before = marked;
                    let fresh = visited.insert(current);
                    if !fresh {
                        assert(visited@ =~= seen);
                        continue;
                    }
                    let ghost popped = stack@;
                    let ghost states_before = self.auf_states@;
                    match self.store.get(&current) {
                        Some(certificate) => {
                            assert(certificates.contains_key(current) && certificates[current]
                                == certificate@);
                            if certificate.round >= min_round {
                                match self.auf_states.get_mut(&current) {
                                    Some(state) => {
                                        observe(state, round, author);
                                    },
                                    None => {},
                                }
                                proof {
                                    assert(!marked_before.contains(current));
                                    marked = marked.insert(current);
                                    assert(self.evidence() =~= marked_evidence(
                                        evidence,
                                        marked,
                                        round,
                                        author,
                                    )) by {
                                        let earlier = marked_evidence(
                                            evidence,
                                            marked_before,
                                            round,
                                            author,
                                        );
                                        assert(earlier.dom() =~= states_before.dom());
                                        assert forall|d: Digest| evidence.contains_key(d) implies #[trigger] self.evidence()[d]
                                            == marked_evidence(evidence, marked, round, author)[d] by {
                                            assert(states_before[d]@ == earlier[d]);
                                        }
                                    }
                                }
                                if certificate.round > min_round {
                                    push_all(&mut stack, &certificate.parents);
                                    proof {
                                        assert forall|x: Digest| #[trigger]
                                            stack@.contains(x) implies reach(steps, *digest, x) by {
                                            if !popped.contains(x) {
                                                assert(steps.contains((current, x)));
                                                lemma_reach_append(steps, *digest, current, x);
                                            }
                                        }
                                    }
                                }
                            }
                        },
                        None => {},
                    }
                    proof {
                        assert forall|x: Digest, y: Digest| #[trigger]
                            steps.contains((x, y)) && visited@.contains(x) implies visited@.contains(y)
                            || stack@.contains(y) by {
                            if x != current {
                                assert(seen.contains(x));
                                assert(seen.contains(y) || stack_before.contains(y));
                            }
                        }
                        assert forall|x: Digest| #[trigger]
                            marked.contains(x) <==> visited@.contains(x) && certificates.contains_key(x)
                                && certificates[x].round >= min_round by {
                            assert(marked_before.contains(x) <==> seen.contains(x)
                                && certificates.contains_key(x) && certificates[x].round >= min_round);
                        }
                        let left = self.store@.dom().difference(seen);
                        let left_now = self.store@.dom().difference(visited@);
                        if self.store@.contains_key(current) {
                            assert(left_now =~= left.remove(current));
                        } else {
                            assert(left_now =~= left);
                        }
                    }
                },
            }
        }
        proof {
            assert forall|d: Digest| #[trigger] marked.contains(d) <==> makes_visible(
                certificates,
                min_round,
                *digest,
                d,
            ) by {
                if makes_visible(certificates, min_round, *digest, d) {
                    assert(closed_under(steps, visited@));
                    lemma_reach_stays(steps, visited@, *digest, d);
                }
            }
            assert(self.evidence() =~= after_certificate(
                certificates,
                evidence,
                min_round,
                *digest,
                round,
                author,
            ));
        }
    }
}

/// The evidence after a creator has seen the marked vertices in a round.
spec fn marked_evidence(
    evidence: Map<Digest, Evidence>,
    marked: Set<Digest>,
    round: Round,
    creator: PublicKey,
) -> Map<Digest, Evidence> {
    Map::new(
        |d: Digest| evidence.contains_key(d),
        |d: Digest|
            if marked.contains(d) {
                with_seen(evidence[d], round, creator)
            } else {
                evidence[d]
            },
    )
}

/// Pushes all items onto the stack.
fn push_all(stack: &mut Vec<Digest>, items: &Vec<Digest>)
    ensures
        final(stack)@ == old(stack)@ + items@,
        forall|x: Digest| #[trigger]
            final(stack)@.contains(x) <==> old(stack)@.contains(x) || items@.contains(x),
{
    let ghost before = stack@;
    let mut i: usize = 0;
    while i < items.len()
        invariant
            i <= items@.len(),
            stack@ == before + items@.take(i as int),
        decreases items.len() - i,
    {
        stack.push(items[i]);
        assert(stack@ =~= before + items@.take(i + 1));
        i = i + 1;
    }
    proof {
        assert(stack@ =~= before + items@);
        assert forall|x: Digest| #[trigger] stack@.contains(x) <==> before.contains(x) || items@.contains(x) by {
            if before.contains(x) {
                assert(stack@[before.index_of(x)] == x);
            }
            if items@.contains(x) {
                assert(stack@[before.len() + items@.index_of(x)] == x);
            }
            if stack@.contains(x) {
                let k = stack@.index_of(x);
                if k < before.len() {
                    assert(before[k] == x);
                } else {
                    assert(items@[k - before.len()] == x);
                }
            }
        }
    }
}

} // verus!
