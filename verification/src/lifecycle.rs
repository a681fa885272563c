//! Evidence and certificates over the life of a slice.

use vstd::prelude::*;

use crate::counting::{
    count_where, lemma_count_add, lemma_count_all, lemma_count_bound, lemma_count_take,
};
use crate::model::{
    by_round, commit_all, commit_one, count_up_to, floor_with, is_floor, lowest_round,
};
use crate::state::{AufState, Evidence, MrvExecutor};
use crate::types::{Certificate, CertificateModel, Digest, PublicKey, Round};

verus! {

/// There is one lowest round.
pub proof fn lemma_floor_unique(
    evidence: Map<Digest, Evidence>,
    one: Option<Round>,
    other: Option<Round>,
)
    requires
        is_floor(evidence, one),
        is_floor(evidence, other),
    ensures
        one == other,
{
    match (one, other) {
        (Some(a), Some(b)) => {
            let d = choose|d: Digest| #[trigger] evidence.contains_key(d) && evidence[d].round == a;
            let e = choose|d: Digest| #[trigger] evidence.contains_key(d) && evidence[d].round == b;
            assert(evidence[d].round >= b && evidence[e].round >= a);
        },
        (Some(a), None) => {
            let d = choose|d: Digest| #[trigger] evidence.contains_key(d) && evidence[d].round == a;
            assert(!evidence.contains_key(d));
        },
        (None, Some(b)) => {
            let d = choose|d: Digest| #[trigger] evidence.contains_key(d) && evidence[d].round == b;
            assert(!evidence.contains_key(d));
        },
        (None, None) => {},
    }
}

/// What is the lowest round is found as such.
pub proof fn lemma_lowest_round(evidence: Map<Digest, Evidence>, floor: Option<Round>)
    requires
        is_floor(evidence, floor),
    ensures
        lowest_round(evidence) == floor,
{
    lemma_floor_unique(evidence, lowest_round(evidence), floor);
}

/// The certificates of a list.
pub open spec fn models(certificates: Seq<Certificate>) -> Seq<CertificateModel> {
    certificates.map_values(|certificate: Certificate| certificate@)
}

impl MrvExecutor {
    /// Takes the round of a new active vertex into account.
    pub fn note_active_round(&mut self, round: Round)
        ensures
            *final(self) == (MrvExecutor {
                active_floor_round: floor_with(old(self).active_floor_round, round),
                ..*old(self)
            }),
    {
        let floor: Round = match self.active_floor_round {
            Some(current) => if current <= round {
                current
            } else {
                round
            },
            None => round,
        };
        self.active_floor_round = Some(floor);
    }

    /// Finds the lowest round of an active vertex.
    pub fn recompute_active_floor_round(&mut self)
        ensures
            is_floor(old(self).evidence(), final(self).active_floor_round),
            final(self).active_floor_round == lowest_round(old(self).evidence()),
            *final(self) == (MrvExecutor {
                active_floor_round: final(self).active_floor_round,
                ..*old(self)
            }),
    {
        let ghost evidence = self.evidence();
        let count = self.auf_states.len();
        let ghost keys = self.auf_states.key_seq();
        let mut floor: Option<Round> = None;
        let mut i: usize = 0;
        while i < count
            invariant
                i <= count,
                count == keys.len(),
                keys == self.auf_states.key_seq(),
                evidence == self.evidence(),
                match floor {
                    Some(round) => {
                        &&& exists|j: int|
                            0 <= j < i && evidence.contains_key(#[trigger] keys[j])
                                && evidence[keys[j]].round == round
                        &&& forall|j: int|
                            0 <= j < i ==> evidence[#[trigger] keys[j]].round >= round
                    },
                    None => i == 0,
                },
            decreases count - i,
        {
            let round: Round = self.auf_states.value_at(i).round;
            proof {
                assert(evidence.contains_key(keys[i as int]));
                assert(evidence[keys[i as int]].round == round);
            }
            floor = match floor {
                Some(current) => if current <= round {
                    Some(current)
                } else {
                    Some(round)
                },
                None => Some(round),
            };
            i = i + 1;
        }
        proof {
            assert forall|d: Digest| #[trigger] evidence.contains_key(d) implies keys.contains(d) by {
                assert(self.auf_states@.dom().contains(d));
            }
            assert(is_floor(evidence, floor));
            lemma_lowest_round(evidence, floor);
        }
        self.active_floor_round = floor;
    }

    /// Gives up the evidence of the vertices.
    pub fn release_evidence(&mut self, members: &[Digest])
        requires
            is_floor(old(self).evidence(), old(self).active_floor_round),
        ensures
            final(self).evidence() == old(self).evidence().remove_keys(members@.to_set()),
            is_floor(final(self).evidence(), final(self).active_floor_round),
            final(self).active_floor_round == lowest_round(final(self).evidence()),
            *final(self) == (MrvExecutor {
                auf_states: final(self).auf_states,
                active_floor_round: final(self).active_floor_round,
                ..*old(self)
            }),
    {
        let ghost before = *self;
        let ghost evidence = self.evidence();
        let mut removed_floor = false;
        let count = members.len();
        let mut i: usize = 0;
        assert(self.evidence() =~= evidence.remove_keys(members@.take(0).to_set()));
        while i < count
            invariant
                i <= count,
                count == members@.len(),
                evidence == before.evidence(),
                *self == (MrvExecutor { auf_states: self.auf_states, ..before }),
                self.evidence() == evidence.remove_keys(members@.take(i as int).to_set()),
                is_floor(evidence, before.active_floor_round),
                !removed_floor ==> forall|d: Digest| #[trigger]
                    members@.take(i as int).to_set().contains(d) && evidence.contains_key(d)
                        ==> Some(evidence[d].round) != before.active_floor_round,
            decreases count - i,
        {
            let digest = members[i];
            let ghost kept = self.evidence();
            match (self.auf_states.get(&digest), self.active_floor_round) {
                (Some(state), Some(floor)) => {
                    assert(kept.contains_key(digest) && kept[digest].round == state.round);
                    if state.round == floor {
                        removed_floor = true;
                    }
                },
                _ => {},
            }
            let _ = self.auf_states.remove(&digest);
            proof {
                crate::topology::lemma_take_next(members@, i as int);
                assert(self.evidence() =~= kept.remove(digest));
                assert(self.evidence() =~= evidence.remove_keys(members@.take(i + 1).to_set()));
                assert forall|d: Digest| #[trigger]
                    members@.take(i + 1).to_set().contains(d) && evidence.contains_key(d)
                        && !removed_floor implies Some(evidence[d].round)
                    != before.active_floor_round by {
                    if !members@.take(i as int).to_set().contains(d) {
                        assert(d == digest);
                        assert(kept.contains_key(d));
                    }
                }
            }
            i = i + 1;
        }
        assert(members@.take(count as int) =~= members@);
        if removed_floor {
            self.recompute_active_floor_round();
        } else {
            proof {
                let floor = self.active_floor_round;
                let left = self.evidence();
                if floor is Some {
                    let d = choose|d: Digest| #[trigger]
                        evidence.contains_key(d) && evidence[d].round == floor->0;
                    assert(!members@.to_set().contains(d));
                    assert(left.contains_key(d));
                }
                assert forall|d: Digest| #[trigger] left.contains_key(d) implies evidence.contains_key(
                    d,
                ) && left[d] == evidence[d] by {}
                assert(is_floor(left, floor));
                lemma_lowest_round(left, floor);
            }
        }
    }

    /// Adds a certificate to the committed prefix.
    pub fn commit_certificate(&mut self, certificate: Certificate)
        ensures
            final(self)@ == commit_one(old(self)@, certificate@),
    {
        let digest = certificate.digest;
        let round: Round = certificate.round;
        let author = certificate.origin;
        let ghost before = *self;
        if round > self.frontier_round {
            self.frontier_round = round;
        }
        let _ = self.store.insert(digest, certificate);
        assert(self.certificates() =~= before.certificates().insert(digest, certificate@));
        if !self.auf_states.contains_key(&digest) {
            self.note_active_round(round);
            let _ = self.auf_states.insert(digest, AufState::new(round));
            assert(self.evidence() =~= before.evidence().insert(
                digest,
                Evidence { round, seen: Map::<Round, Set<PublicKey>>::empty() },
            ));
        } else {
            assert(before.evidence().contains_key(digest));
        }
        self.update_seen_for_new_certificate(round, author, &digest);
    }
}

/// The list turned around.
fn turned<T>(items: Vec<T>) -> (result: Vec<T>)
    ensures
        result@ == items@.reverse(),
{
    let ghost all = items@;
    let mut items = items;
    let mut result: Vec<T> = Vec::new();
    while items.len() > 0
        invariant
            items@.len() <= all.len(),
            items@ == all.take(items@.len() as int),
            result@.len() + items@.len() == all.len(),
            forall|i: int| 0 <= i < result@.len() ==> #[trigger] result@[i] == all[all.len() - 1 - i],
        decreases items@.len(),
    {
        let ghost n = items@.len() - 1;
        result.push(items.pop().unwrap());
        assert(items@ =~= all.take(n));
    }
    assert(result@ =~= all.reverse());
    result
}

/// How many certificates at the front are not of a higher round.
fn place_by_round(sorted: &Vec<Certificate>, round: Round) -> (place: usize)
    requires
        rounds_ascend(models(sorted@)),
    ensures
        place <= sorted@.len(),
        place == count_up_to(models(sorted@), round),
{
    let ghost all = models(sorted@);
    let ghost keep = |certificate: CertificateModel| certificate.round <= round;
    let count = sorted.len();
    let mut place: usize = 0;
    assert(all.take(0) =~= Seq::<CertificateModel>::empty());
    while place < count && sorted[place].round <= round
        invariant
            place <= count,
            count == sorted@.len(),
            all == models(sorted@),
            keep == (|certificate: CertificateModel| certificate.round <= round),
            count_where(all.take(place as int), keep) == place,
        decreases count - place,
    {
        proof {
            lemma_count_take(all, keep, place as int);
        }
        place = place + 1;
    }
    proof {
        assert(all =~= all.take(place as int) + all.skip(place as int));
        lemma_count_add(all.take(place as int), all.skip(place as int), keep);
        let rest = all.skip(place as int);
        assert forall|i: int| 0 <= i < rest.len() implies !keep(#[trigger] rest[i]) by {
            assert(rest[i] == all[place + i]);
            assert(all[place as int].round <= all[place + i].round);
        }
        lemma_count_none(rest, keep);
    }
    place
}

/// Whether the rounds never fall.
pub open spec fn rounds_ascend(certificates: Seq<CertificateModel>) -> bool {
    forall|i: int, j: int|
        0 <= i <= j < certificates.len() ==> (#[trigger] certificates[i]).round <= (
        #[trigger] certificates[j]).round
}

/// Inserting a certificate after those that are not of a higher round keeps the rounds ascending.
proof fn lemma_insert_by_round(certificates: Seq<CertificateModel>, last: CertificateModel)
    requires
        rounds_ascend(certificates),
    ensures
        count_up_to(certificates, last.round) <= certificates.len(),
        rounds_ascend(certificates.insert(count_up_to(certificates, last.round) as int, last)),
{
    let keep = |certificate: CertificateModel| certificate.round <= last.round;
    let place = count_where(certificates, keep) as int;
    lemma_count_bound(certificates, keep);
    lemma_count_at_front(certificates, last.round);
    let longer = certificates.insert(place, last);
    assert forall|i: int, j: int| 0 <= i <= j < longer.len() implies (#[trigger] longer[i]).round <= (
    #[trigger] longer[j]).round by {
        let a: int = if i < place {
            i
        } else {
            i - 1
        };
        let b: int = if j < place {
            j
        } else {
            j - 1
        };
        if i == place && j > place {
            assert(longer[j] == certificates[b]);
        } else if j == place && i < place {
            assert(longer[i] == certificates[a]);
        } else if i != j {
            assert(longer[i] == certificates[a] && longer[j] == certificates[b]);
        }
    }
}

/// Where rounds ascend, those up to a round stand at the front.
pub proof fn lemma_count_at_front(certificates: Seq<CertificateModel>, round: Round)
    requires
        rounds_ascend(certificates),
    ensures
        forall|i: int|
            0 <= i < certificates.len() ==> ((#[trigger] certificates[i]).round <= round <==> i
                < count_up_to(certificates, round)),
    decreases certificates.len(),
{
    let keep = |certificate: CertificateModel| certificate.round <= round;
    if certificates.len() > 0 {
        let init = certificates.drop_last();
        let last = certificates.last();
        assert forall|i: int, j: int| 0 <= i <= j < init.len() implies (#[trigger] init[i]).round <= (
        #[trigger] init[j]).round by {
            assert(certificates[i].round <= certificates[j].round);
        }
        lemma_count_at_front(init, round);
        lemma_count_bound(init, keep);
        if last.round <= round {
            assert forall|i: int| 0 <= i < init.len() implies keep(#[trigger] init[i]) by {
                assert(certificates[i].round <= certificates[certificates.len() - 1].round);
            }
            lemma_count_all(init, keep);
        }
        assert forall|i: int| 0 <= i < certificates.len() implies ((#[trigger] certificates[i]).round
            <= round <==> i < count_up_to(certificates, round)) by {
            if i < init.len() {
                assert(init[i] == certificates[i]);
            }
        }
    }
}

proof fn lemma_count_none<A>(items: Seq<A>, keep: spec_fn(A) -> bool)
    requires
        forall|i: int| 0 <= i < items.len() ==> !keep(#[trigger] items[i]),
    ensures
        count_where(items, keep) == 0,
    decreases items.len(),
{
    if items.len() > 0 {
        let init = items.drop_last();
        assert forall|i: int| 0 <= i < init.len() implies !keep(#[trigger] init[i]) by {
            assert(init[i] == items[i]);
        }
        lemma_count_none(init, keep);
        assert(!keep(items[items.len() - 1]));
    }
}

/// The certificates by round are the same certificates, in ascending rounds.
pub proof fn lemma_by_round(certificates: Seq<CertificateModel>)
    ensures
        rounds_ascend(by_round(certificates)),
        by_round(certificates).len() == certificates.len(),
        by_round(certificates).to_multiset() == certificates.to_multiset(),
    decreases certificates.len(),
{
    if certificates.len() > 0 {
        let rest = by_round(certificates.drop_last());
        let last = certificates.last();
        lemma_by_round(certificates.drop_last());
        lemma_insert_by_round(rest, last);
        let place = count_up_to(rest, last.round) as int;
        vstd::seq_lib::to_multiset_insert(rest, place, last);
        assert(certificates =~= certificates.drop_last().push(last));
        vstd::seq_lib::to_multiset_build(certificates.drop_last(), last);
    }
}

/// The certificates by round, those of one round in the order in which they came.
pub fn sort_by_round(certificates: Vec<Certificate>) -> (sorted: Vec<Certificate>)
    ensures
        models(sorted@) == by_round(models(certificates@)),
{
    let ghost all = models(certificates@);
    let ghost turned_all = certificates@.reverse();
    let mut rest = turned(certificates);
    let mut sorted: Vec<Certificate> = Vec::new();
    assert(models(sorted@) =~= by_round(all.take(0)));
    while rest.len() > 0
        invariant
            all == models(turned_all.reverse()),
            all.len() == turned_all.len(),
            rest@.len() <= all.len(),
            rest@ == turned_all.take(rest@.len() as int),
            models(sorted@) == by_round(all.take(all.len() - rest@.len())),
        decreases rest@.len(),
    {
        let ghost n = rest@.len() - 1;
        let ghost done = all.len() - rest@.len();
        let ghost front = sorted@;
        let certificate = rest.pop().unwrap();
        proof {
            lemma_by_round(all.take(done));
        }
        let round: Round = certificate.round;
        let place = place_by_round(&sorted, round);
        sorted.insert(place, certificate);
        proof {
            assert(certificate == turned_all[n]);
            assert(turned_all.reverse()[done] == turned_all[n]);
            assert(all[done] == certificate@);
            assert(all.take(done + 1).drop_last() =~= all.take(done));
            assert(models(sorted@) =~= models(front).insert(place as int, certificate@));
        }
        assert(rest@ =~= turned_all.take(n));
    }
    proof {
        assert(all.take(all.len() as int) =~= all);
        assert(turned_all.reverse() =~= certificates@);
    }
    sorted
}

impl MrvExecutor {
    /// Adds certificates to the committed prefix, one after the other.
    pub fn commit_certificates(&mut self, certificates: Vec<Certificate>)
        ensures
            final(self)@ == commit_all(old(self)@, models(certificates@)),
    {
        let ghost all = models(certificates@);
        let ghost turned_all = certificates@.reverse();
        let mut rest = turned(certificates);
        assert(all.take(0) =~= Seq::<CertificateModel>::empty());
        while rest.len() > 0
            invariant
                all == models(turned_all.reverse()),
                all.len() == turned_all.len(),
                rest@.len() <= all.len(),
                rest@ == turned_all.take(rest@.len() as int),
                self@ == commit_all(old(self)@, all.take(all.len() - rest@.len())),
            decreases rest@.len(),
        {
            let ghost n = rest@.len() - 1;
            let ghost done = all.len() - rest@.len();
            let certificate = rest.pop().unwrap();
            proof {
                assert(certificate == turned_all[n]);
                assert(turned_all.reverse()[done] == turned_all[n]);
                assert(all[done] == certificate@);
                assert(all.take(done + 1).drop_last() =~= all.take(done));
            }
            self.commit_certificate(certificate);
            assert(rest@ =~= turned_all.take(n));
        }
        proof {
            assert(all.take(all.len() as int) =~= all);
        }
    }
}

} // verus!
