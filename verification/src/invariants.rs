//! What the executor keeps from one commit to the next.

use vstd::prelude::*;

use crate::lifecycle::lemma_lowest_round;
use crate::model::{
    booked, by_round, commit_all, commit_one, count_up_to, floor_with, highest_round, is_floor,
    new_slice, registered, with_owners, ExecutorModel,
};
use crate::types::{CertificateModel, CommitModel, Digest, Round};
use crate::visibility::seen_at;

verus! {

/// Whether no two of the certificates have the same digest.
pub open spec fn distinct(certificates: Seq<CertificateModel>) -> bool {
    forall|i: int, j: int|
        0 <= i < j < certificates.len() ==> (#[trigger] certificates[i]).digest != (
        #[trigger] certificates[j]).digest
}

/// Sorting by round neither adds nor drops a certificate.
pub proof fn lemma_by_round_contains(certificates: Seq<CertificateModel>, c: CertificateModel)
    ensures
        by_round(certificates).contains(c) <==> certificates.contains(c),
{
    crate::lifecycle::lemma_by_round(certificates);
    vstd::seq_lib::to_multiset_contains(certificates, c);
    vstd::seq_lib::to_multiset_contains(by_round(certificates), c);
}

/// Sorting by round keeps the certificates distinct.
proof fn lemma_by_round_distinct(certificates: Seq<CertificateModel>)
    requires
        distinct(certificates),
    ensures
        distinct(by_round(certificates)),
    decreases certificates.len(),
{
    if certificates.len() > 0 {
        let init = certificates.drop_last();
        let last = certificates.last();
        let rest = by_round(init);
        lemma_by_round_distinct(init);
        crate::lifecycle::lemma_by_round(init);
        let place = count_up_to(rest, last.round) as int;
        crate::counting::lemma_count_bound(
            rest,
            |certificate: CertificateModel| certificate.round <= last.round,
        );
        let longer = rest.insert(place, last);
        assert forall|i: int| 0 <= i < rest.len() implies (#[trigger] rest[i]).digest
            != last.digest by {
            assert(rest.contains(rest[i]));
            lemma_by_round_contains(init, rest[i]);
            let k = init.index_of(rest[i]);
            assert(init[k] == rest[i]);
            assert(certificates[k].digest != certificates[certificates.len() - 1].digest);
        }
        assert forall|i: int, j: int| 0 <= i < j < longer.len() implies (
        #[trigger] longer[i]).digest != (#[trigger] longer[j]).digest by {
            let a: int = if i < place {
                i
            } else {
                i - 1
            };
            let b: int = if j < place {
                j
            } else {
                j - 1
            };
            if i == place {
                assert(longer[j] == rest[b]);
            } else if j == place {
                assert(longer[i] == rest[a]);
            } else {
                assert(longer[i] == rest[a] && longer[j] == rest[b]);
                assert(rest[a].digest != rest[b].digest);
            }
        }
    }
}

/// What holds while the certificates of a commit join one by one.
spec fn joining(
    model: ExecutorModel,
    certificates: Seq<CertificateModel>,
    now: ExecutorModel,
) -> bool {
    &&& now == (ExecutorModel {
        certificates: now.certificates,
        evidence: now.evidence,
        floor: now.floor,
        frontier: now.frontier,
        ..model
    })
    &&& now.frontier >= model.frontier
    &&& forall|d: Digest| #[trigger]
        model.certificates.contains_key(d) ==> now.certificates.contains_key(d)
            && now.certificates[d] == model.certificates[d]
    &&& forall|d: Digest| #[trigger]
        now.certificates.contains_key(d) ==> now.certificates[d].digest == d
            && now.certificates[d].round <= now.frontier && (model.certificates.contains_key(d)
            || certificates.contains(now.certificates[d]))
    &&& forall|c: CertificateModel| #[trigger]
        certificates.contains(c) ==> now.certificates.contains_key(c.digest)
            && now.certificates[c.digest] == c && now.evidence.contains_key(c.digest)
    &&& forall|d: Digest| #[trigger]
        model.evidence.contains_key(d) ==> now.evidence.contains_key(d)
    &&& forall|d: Digest| #[trigger]
        now.evidence.contains_key(d) ==> now.certificates.contains_key(d)
            && now.evidence[d].round == now.certificates[d].round && (model.evidence.contains_key(d)
            || certificates.contains(now.certificates[d]))
    &&& forall|d: Digest, round: Round| (#[trigger] seen_at(now.evidence, d, round)).finite()
    &&& is_floor(now.evidence, now.floor)
}

/// A further certificate joins.
proof fn lemma_joining_step(
    model: ExecutorModel,
    certificates: Seq<CertificateModel>,
    now: ExecutorModel,
    next: CertificateModel,
)
    requires
        joining(model, certificates, now),
        !now.certificates.contains_key(next.digest),
    ensures
        joining(model, certificates.push(next), commit_one(now, next)),
{
    let after = commit_one(now, next);
    let digest = next.digest;
    let longer = certificates.push(next);
    assert(!now.evidence.contains_key(digest));
    assert forall|c: CertificateModel| longer.contains(c) <==> certificates.contains(c) || c
        == next by {
        if certificates.contains(c) {
            assert(longer[certificates.index_of(c)] == c);
        }
        assert(longer[certificates.len() as int] == next);
    }
    assert forall|d: Digest| #[trigger] after.evidence.contains_key(d) <==> now.evidence.contains_key(
        d,
    ) || d == digest by {}
    assert forall|d: Digest| #[trigger] now.evidence.contains_key(d) implies after.evidence[d].round
        == now.evidence[d].round by {}
    assert(after.evidence[digest].round == next.round);
    assert forall|d: Digest| #[trigger] after.evidence.contains_key(d) implies after.certificates.contains_key(
        d,
    ) && after.evidence[d].round == after.certificates[d].round && (model.evidence.contains_key(d)
        || longer.contains(after.certificates[d])) by {
        if d != digest {
            assert(now.evidence.contains_key(d));
        }
    }
    assert forall|d: Digest, round: Round| (#[trigger] seen_at(
        after.evidence,
        d,
        round,
    )).finite() by {
        assert(seen_at(now.evidence, d, round).finite());
    }
    assert(is_floor(after.evidence, after.floor)) by {
        let low = after.floor->0;
        assert(after.floor == floor_with(now.floor, next.round));
        match now.floor {
            Some(current) => {
                let d = choose|d: Digest| #[trigger]
                    now.evidence.contains_key(d) && now.evidence[d].round == current;
                if current <= next.round {
                    assert(after.evidence.contains_key(d) && after.evidence[d].round == low);
                } else {
                    assert(after.evidence.contains_key(digest));
                }
            },
            None => {
                assert(after.evidence.contains_key(digest));
            },
        }
        assert forall|d: Digest| #[trigger] after.evidence.contains_key(d) implies after.evidence[d].round
            >= low by {
            if d != digest {
                assert(now.evidence.contains_key(d));
            }
        }
    }
}

proof fn lemma_joining(model: ExecutorModel, certificates: Seq<CertificateModel>)
    requires
        distinct(certificates),
        forall|i: int|
            0 <= i < certificates.len() ==> !model.certificates.contains_key(
                (#[trigger] certificates[i]).digest,
            ),
        joining(model, Seq::empty(), model),
    ensures
        joining(model, certificates, commit_all(model, certificates)),
    decreases certificates.len(),
{
    if certificates.len() == 0 {
        assert(certificates =~= Seq::empty());
    } else {
        let init = certificates.drop_last();
        let last = certificates.last();
        assert(distinct(init)) by {
            assert forall|i: int, j: int| 0 <= i < j < init.len() implies (#[trigger] init[i]).digest
                != (#[trigger] init[j]).digest by {
                assert(certificates[i].digest != certificates[j].digest);
            }
        }
        assert forall|i: int| 0 <= i < init.len() implies !model.certificates.contains_key(
            (#[trigger] init[i]).digest,
        ) by {
            assert(!model.certificates.contains_key(certificates[i].digest));
        }
        lemma_joining(model, init);
        let now = commit_all(model, init);
        assert(!now.certificates.contains_key(last.digest)) by {
            if now.certificates.contains_key(last.digest) {
                let c = now.certificates[last.digest];
                assert(!model.certificates.contains_key(
                    certificates[certificates.len() - 1].digest,
                ));
                assert(init.contains(c));
                let k = init.index_of(c);
                assert(init[k] == c);
                assert(certificates[k].digest != certificates[certificates.len() - 1].digest);
            }
        }
        lemma_joining_step(model, init, now, last);
        assert(init.push(last) =~= certificates);
    }
}

/// The highest round is not below any.
pub proof fn lemma_highest_round(certificates: Seq<CertificateModel>, c: CertificateModel)
    requires
        certificates.contains(c),
    ensures
        c.round <= highest_round(certificates),
    decreases certificates.len(),
{
    if certificates.len() > 0 && certificates.last() != c {
        let k = certificates.index_of(c);
        assert(certificates[k] == c);
        assert(certificates.drop_last()[k] == c);
        lemma_highest_round(certificates.drop_last(), c);
    }
}

/// The digest of a certificate of the commit is a member of it, and there is a certificate for
/// every member.
pub proof fn lemma_members(commit: CommitModel)
    ensures
        forall|c: CertificateModel| #[trigger]
            commit.certificates.contains(c) ==> commit.members().contains(c.digest),
        forall|d: Digest| #[trigger]
            commit.members().contains(d) ==> exists|c: CertificateModel| #[trigger]
                commit.certificates.contains(c) && c.digest == d,
        commit.members().no_duplicates() ==> distinct(commit.certificates),
{
    let members = commit.members();
    let certificates = commit.certificates;
    assert forall|c: CertificateModel| #[trigger] certificates.contains(c) implies members.contains(
        c.digest,
    ) by {
        let k = certificates.index_of(c);
        assert(certificates[k] == c);
        assert(members[k] == c.digest);
    }
    assert forall|d: Digest| #[trigger] members.contains(d) implies exists|c: CertificateModel| #[trigger]
        certificates.contains(c) && c.digest == d by {
        let k = members.index_of(d);
        assert(members[k] == d);
        assert(certificates.contains(certificates[k]));
    }
    if members.no_duplicates() {
        assert forall|i: int, j: int| 0 <= i < j < certificates.len() implies (
        #[trigger] certificates[i]).digest != (#[trigger] certificates[j]).digest by {
            assert(members[i] != members[j]);
        }
    }
}

/// Every vertex of a commit counts once.
pub proof fn lemma_owner_count(owners: Map<Digest, u64>, members: Seq<Digest>, id: u64)
    requires
        owners.dom().finite(),
        members.no_duplicates(),
        forall|i: int| 0 <= i < members.len() ==> !owners.contains_key(#[trigger] members[i]),
    ensures
        with_owners(owners, members, id).dom().finite(),
        with_owners(owners, members, id).len() == owners.len() + members.len(),
{
    let new = members.to_set();
    members.unique_seq_to_set();
    assert(with_owners(owners, members, id).dom() =~= owners.dom().union(new));
    assert forall|d: Digest| owners.dom().contains(d) implies !new.contains(d) by {
        if new.contains(d) {
            let k = members.index_of(d);
            assert(members[k] == d);
        }
    }
    assert(owners.dom().disjoint(new));
    vstd::set_lib::lemma_set_disjoint_lens(owners.dom(), new);
}

/// Registering a commit keeps the executor valid. Its vertices have certificates and evidence,
/// and what was stored before stays.
pub proof fn lemma_registered_valid(model: ExecutorModel, commit: CommitModel)
    requires
        model.valid(),
        model.accepts(commit),
        commit.certificates.len() > 0,
    ensures
        registered(model, commit).valid(),
        forall|d: Digest| #[trigger]
            model.certificates.contains_key(d) ==> registered(
                model,
                commit,
            ).certificates.contains_key(d) && registered(model, commit).certificates[d]
                == model.certificates[d],
        forall|c: CertificateModel| #[trigger]
            commit.certificates.contains(c) ==> registered(model, commit).certificates.contains_key(
                c.digest,
            ) && registered(model, commit).certificates[c.digest] == c,
        forall|d: Digest| #[trigger]
            model.evidence.contains_key(d) ==> registered(model, commit).evidence.contains_key(d),
        forall|d: Digest| #[trigger]
            registered(model, commit).certificates.contains_key(d) ==> model.certificates.contains_key(
                d,
            ) || registered(model, commit).evidence.contains_key(d),
        registered(model, commit).frontier >= model.frontier,
        registered(model, commit).slices == model.slices.insert(
            commit.batch_index,
            new_slice(model, commit),
        ),
        registered(model, commit).window == model.window,
        registered(model, commit).quorum == model.quorum,
        registered(model, commit).theta == model.theta,
{
    let start = booked(model, commit);
    let sorted = by_round(commit.certificates);
    let now = commit_all(start, sorted);
    let after = registered(model, commit);
    let members = commit.members();
    let id = commit.batch_index;
    lemma_members(commit);
    lemma_by_round_distinct(commit.certificates);
    assert forall|c: CertificateModel| #[trigger] sorted.contains(c) <==> commit.certificates.contains(
        c,
    ) by {
        lemma_by_round_contains(commit.certificates, c);
    }
    assert forall|i: int| 0 <= i < sorted.len() implies !start.certificates.contains_key(
        (#[trigger] sorted[i]).digest,
    ) by {
        assert(sorted.contains(sorted[i]));
        let d = sorted[i].digest;
        assert(members.contains(d));
        let k = members.index_of(d);
        assert(!model.owners.contains_key(members[k]));
    }
    assert(joining(start, Seq::empty(), start));
    lemma_joining(start, sorted);
    lemma_owner_count(model.owners, members, id);
    assert forall|c: CertificateModel| #[trigger] commit.certificates.contains(
        c,
    ) implies after.certificates.contains_key(c.digest) && after.certificates[c.digest] == c by {
        assert(sorted.contains(c));
    }
    assert forall|d: Digest| #[trigger] after.certificates.contains_key(d) implies after.owners.contains_key(
        d,
    ) by {
        if !model.certificates.contains_key(d) {
            assert(sorted.contains(now.certificates[d]));
            assert(commit.certificates.contains(now.certificates[d]));
        }
    }
    assert forall|d: Digest| #[trigger] after.evidence.contains_key(d) implies after.is_active(d) by {
        if model.evidence.contains_key(d) {
            let j = choose|j: u64| #[trigger]
                model.slices.contains_key(j) && model.slices[j].sealed is None
                    && model.slices[j].members.contains(d);
            assert(j != id);
            assert(after.slices.contains_key(j));
        } else {
            assert(sorted.contains(now.certificates[d]));
            assert(commit.certificates.contains(now.certificates[d]));
            assert(after.slices.contains_key(id));
        }
    }
    assert forall|j: u64| #[trigger] after.slices.contains_key(j) implies after.slice_valid(j) by {
        if j == id {
            assert forall|d: Digest| #[trigger] members.contains(d) implies ({
                &&& after.certificates.contains_key(d)
                &&& after.evidence.contains_key(d)
                &&& after.certificates[d].round <= highest_round(commit.certificates)
                &&& after.owners.contains_key(d)
                &&& after.owners[d] == id
            }) by {
                let c = choose|c: CertificateModel| #[trigger]
                    commit.certificates.contains(c) && c.digest == d;
                assert(sorted.contains(c));
                lemma_highest_round(commit.certificates, c);
            }
            assert(members.len() == commit.certificates.len());
        } else {
            assert(model.slices.contains_key(j));
            assert(model.slice_valid(j));
            assert forall|d: Digest| model.owners.contains_key(d) implies #[trigger] after.owners.contains_key(d)
                && after.owners[d] == model.owners[d] by {
                if members.contains(d) {
                    let k = members.index_of(d);
                    assert(!model.owners.contains_key(members[k]));
                }
            }
        }
    }
}

/// Dropping certificates that are not needed keeps the executor valid.
pub proof fn lemma_collected_valid(model: ExecutorModel)
    requires
        model.valid(),
    ensures
        model.collected().valid(),
{
    let after = model.collected();
    assert forall|d: Digest| #[trigger] model.evidence.contains_key(d) implies after.certificates.contains_key(
        d,
    ) && after.certificates[d] == model.certificates[d] by {
        assert(model.floor is Some);
        assert(model.is_needed(d));
    }
    assert forall|d: Digest| #[trigger] after.evidence.contains_key(d) implies after.is_active(d) by {
        assert(model.is_active(d));
        let j = choose|j: u64| #[trigger]
            model.slices.contains_key(j) && model.slices[j].sealed is None
                && model.slices[j].members.contains(d);
        assert(after.slices.contains_key(j));
    }
    assert forall|id: u64| #[trigger] after.slices.contains_key(id) implies after.slice_valid(id) by {
        assert(model.slices.contains_key(id));
        assert(model.slice_valid(id));
        match model.slices[id].sealed {
            Some(sealed) => {
                assert forall|d: Digest| #[trigger] sealed.order.contains(d) implies after.certificates.contains_key(
                d) by {
                    assert(model.is_queued(d));
                    assert(model.is_needed(d));
                }
            },
            None => {
                assert forall|d: Digest| #[trigger] model.slices[id].members.contains(d) implies after.certificates.contains_key(
                d) && after.certificates[d].round <= model.slices[id].max_round by {
                    assert(model.evidence.contains_key(d));
                }
            },
        }
    }
}

/// Where nothing can be sealed after a commit, nothing can be released either, and every
/// certificate is needed.
proof fn lemma_nothing_ready(model: ExecutorModel, commit: CommitModel)
    requires
        model.settled(),
        model.accepts(commit),
        commit.certificates.len() > 0,
    ensures
        forall|id: u64| !#[trigger] registered(model, commit).is_free(id),
        forall|d: Digest| #[trigger]
            registered(model, commit).certificates.contains_key(d) ==> registered(
                model,
                commit,
            ).is_needed(d),
{
    let after = registered(model, commit);
    lemma_registered_valid(model, commit);
    assert forall|id: u64| !#[trigger] after.is_free(id) by {
        if after.is_free(id) {
            assert(after.slices.contains_key(id));
            if id == commit.batch_index {
                assert(after.slices[id].sealed is None);
            } else {
                assert(model.slices.contains_key(id));
                assert(!model.is_free(id));
                let j = choose|j: u64| #[trigger]
                    model.slices.contains_key(j) && j <= id && model.slices[j].sealed is None;
                assert(after.slices.contains_key(j));
            }
        }
    }
    assert forall|d: Digest| #[trigger] after.certificates.contains_key(d) implies after.is_needed(d) by {
        if after.evidence.contains_key(d) {
            assert(after.floor is Some);
        } else {
            assert(model.certificates.contains_key(d));
            assert(model.is_needed(d));
            if model.is_queued(d) {
                let id = choose|id: u64| #[trigger]
                    model.slices.contains_key(id) && (model.slices[id].sealed matches Some(sealed)
                        && sealed.order.contains(d));
                assert(after.slices.contains_key(id));
                assert(after.slices[id] == model.slices[id]);
                assert(after.is_queued(d));
            } else {
                let low = model.floor->0;
                let e = choose|e: Digest| #[trigger]
                    model.evidence.contains_key(e) && model.evidence[e].round == low;
                assert(after.evidence.contains_key(e));
                assert(model.certificates.contains_key(e));
                assert(after.evidence[e].round == low);
                assert(after.floor is Some);
            }
        }
    }
}

/// The executor is settled again after a commit.
pub proof fn lemma_next_settled(model: ExecutorModel, commit: CommitModel)
    requires
        model.settled(),
        model.accepts(commit),
        model.sealed_by(commit).valid(),
        model.sealed_by(commit).without_free().valid(),
    ensures
        model.next(commit).settled(),
{
    if commit.certificates.len() > 0 {
        let start = registered(model, commit);
        let sealed = model.sealed_by(commit);
        let left = sealed.without_free();
        let after = model.next(commit);
        lemma_registered_valid(model, commit);
        lemma_collected_valid(left);
        assert forall|id: u64| !#[trigger] left.is_ready(id) by {
            if left.is_ready(id) {
                assert(sealed.slices.contains_key(id));
                assert(start.slices.contains_key(id));
                if start.ready().contains(id) {
                    assert(sealed.slices[id].sealed is Some);
                } else {
                    assert(sealed.slices[id] == start.slices[id]);
                    assert(start.is_ready(id));
                }
            }
        }
        assert forall|id: u64| !#[trigger] left.is_free(id) by {
            if left.is_free(id) {
                assert(left.slices.contains_key(id));
                assert(!sealed.is_free(id));
                let j = choose|j: u64| #[trigger]
                    sealed.slices.contains_key(j) && j <= id && sealed.slices[j].sealed is None;
                assert(!sealed.is_free(j));
                assert(left.slices.contains_key(j));
            }
        }
        assert forall|id: u64| !#[trigger] after.is_ready(id) by {
            assert(!left.is_ready(id));
        }
        assert forall|id: u64| !#[trigger] after.is_free(id) by {
            if after.is_free(id) {
                assert forall|j: u64| #[trigger] left.slices.contains_key(j) && j <= id implies left.slices[j].sealed is Some by {
                    assert(after.slices.contains_key(j));
                }
                assert(left.is_free(id));
            }
        }
        if start.ready() == Set::<u64>::empty() {
            lemma_nothing_ready(model, commit);
            assert(start.members_of(start.ready()) =~= Set::<Digest>::empty());
            assert(sealed.evidence =~= start.evidence);
            lemma_lowest_round(start.evidence, start.floor);
            assert(sealed.slices =~= start.slices);
            assert(sealed == start);
            assert(left.slices =~= start.slices);
            assert(left == start);
        } else {
            assert forall|d: Digest| #[trigger] after.certificates.contains_key(d) implies after.is_needed(
                d,
            ) by {
                assert(left.is_needed(d));
                if left.is_queued(d) {
                    let id = choose|id: u64| #[trigger]
                        left.slices.contains_key(id) && (left.slices[id].sealed matches Some(s)
                            && s.order.contains(d));
                    assert(after.slices.contains_key(id));
                    assert(after.is_queued(d));
                }
            }
        }
    }
}

} // verus!
