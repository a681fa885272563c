//! What a commit does to the executor, step by step.

use vstd::prelude::*;
use vstd::string::*;

use crate::executor::{lemma_vertex_counts, LifecycleReason, LifecycleViolation};
use crate::executor_laws::lemma_owners_stay;
use crate::fingerprint::{extended_prefix, fingerprint, member_set_fingerprint};
use crate::invariants::{lemma_highest_round, lemma_registered_valid};
use crate::lifecycle::{lemma_by_round, lemma_lowest_round};
use crate::linearize::is_linearization;
use crate::model::{
    booked, by_round, commit_all, commit_one, highest_round, is_floor, lowest_round, registered,
    ExecutorModel,
};
use crate::ordering::Snapshot;
use crate::run_laws::{lemma_frontier, lemma_highest_attained};
use crate::state::{AufState, Evidence, MrvExecutor};
use crate::types::{CertificateModel, CommitModel, CommittedSubDag, Digest, Round};

verus! {

/// What stands for an executor is what its fields hold.
pub proof fn law_executor_contents(executor: MrvExecutor, d: Digest, id: u64)
    ensures
        executor@.window == executor.mrv_window,
        executor@.quorum == executor.reach_threshold,
        executor@.theta == executor.delta_threshold,
        executor@.frontier == executor.frontier_round,
        executor@.floor == executor.active_floor_round,
        executor@.member_count == executor.cumulative_member_count,
        executor@.prefix == executor.export_prefix_digest,
        executor@.owners == executor.seen_slice_members@,
        executor@.certificates.contains_key(d) <==> executor.store@.contains_key(d),
        executor.store@.contains_key(d) ==> {
            &&& executor@.certificates[d].digest == executor.store@[d].digest
            &&& executor@.certificates[d].round == executor.store@[d].round
            &&& executor@.certificates[d].origin == executor.store@[d].origin
            &&& executor@.certificates[d].parents == executor.store@[d].parents@
        },
        executor@.evidence.contains_key(d) <==> executor.auf_states@.contains_key(d),
        executor.auf_states@.contains_key(d) ==> executor@.evidence[d].round
            == executor.auf_states@[d].round,
        executor@.slices.contains_key(id) <==> executor.slices@.contains_key(id),
        executor.slices@.contains_key(id) ==> {
            let slice = executor.slices@[id];
            &&& executor@.slices[id].members == slice.members@
            &&& executor@.slices[id].max_round == slice.max_round
            &&& executor@.slices[id].seal_horizon == slice.seal_horizon
            &&& executor@.slices[id].sealed is Some <==> slice.sealed is Some
            &&& slice.sealed is Some ==> executor@.slices[id].sealed->0.order
                == slice.sealed->0.order@
        },
{
}

/// The evidence of a vertex lists the creators by the rounds in which they have seen it.
pub proof fn law_evidence_contents(state: AufState, r: Round)
    ensures
        state@.round == state.round,
        state@.seen.contains_key(r) <==> state.seen_by_round@.contains_key(r),
        state.seen_by_round@.contains_key(r) ==> state@.seen[r] == state.seen_by_round@[r]@,
{
}

/// A commit holds the certificates in the order in which they were committed.
pub proof fn law_commit_contents(commit: CommittedSubDag, k: int)
    ensures
        commit@.batch_index == commit.batch_index,
        commit@.leader_round == commit.leader_round,
        commit@.leader_digest == commit.leader_digest,
        commit@.certificates.len() == commit.certificates@.len(),
        commit@.members().len() == commit.certificates@.len(),
        0 <= k < commit.certificates@.len() ==> {
            let certificate = commit.certificates@[k];
            &&& commit@.certificates[k].digest == certificate.digest
            &&& commit@.certificates[k].round == certificate.round
            &&& commit@.certificates[k].origin == certificate.origin
            &&& commit@.certificates[k].parents == certificate.parents@
            &&& commit@.members()[k] == certificate.digest
        },
{
}

/// A new executor is empty, whatever the committee; without creators the thresholds are those for
/// one.
pub proof fn law_new_executor(executor: MrvExecutor, committee_size: usize, window: Round, i: int)
    requires
        executor.is_new(committee_size, window),
    ensures
        executor@.certificates.dom() == Set::<Digest>::empty(),
        executor@.evidence.dom() == Set::<Digest>::empty(),
        executor@.slices.dom() == Set::<u64>::empty(),
        executor@.owners.dom() == Set::<Digest>::empty(),
        executor@.floor is None,
        executor@.frontier == 0,
        executor@.window == window,
        executor@.member_count == 0,
        0 <= i < 32 ==> executor@.prefix.0@[i] == 0,
        committee_size > 0 ==> executor@.quorum == 2 * ((committee_size - 1) / 3) + 1
            && executor@.theta == (committee_size - 1) / 3 + 1,
        committee_size == 0 ==> executor@.quorum == 1 && executor@.theta == 1,
{
    assert(executor@.certificates.dom() =~= Set::<Digest>::empty());
    assert(executor@.evidence.dom() =~= Set::<Digest>::empty());
    assert(executor@.slices.dom() =~= Set::<u64>::empty());
}

/// A slice waits with its vertices in the order in which they were committed, until the frontier
/// has come a whole window past its highest round: the horizon is the highest round plus the window,
/// or the last round there is where that is more. The other slices stay as they are.
pub proof fn law_horizon(
    model: ExecutorModel,
    commit: CommitModel,
    highest: CertificateModel,
    other: u64,
)
    requires
        commit.certificates.contains(highest),
        forall|c: CertificateModel| #[trigger]
            commit.certificates.contains(c) ==> c.round <= highest.round,
        model.valid(),
        model.accepts(commit),
    ensures
        ({
            let after = registered(model, commit);
            let slice = after.slices[commit.batch_index];
            &&& after.slices.contains_key(commit.batch_index)
            &&& slice.max_round == highest.round
            &&& highest.round + model.window <= u64::MAX ==> slice.seal_horizon == highest.round
                + model.window
            &&& highest.round + model.window > u64::MAX ==> slice.seal_horizon == u64::MAX
            &&& slice.sealed is None
            &&& slice.members.len() == commit.certificates.len()
            &&& forall|k: int|
                0 <= k < commit.certificates.len() ==> #[trigger] slice.members[k]
                    == commit.certificates[k].digest
            &&& other != commit.batch_index ==> (after.slices.contains_key(other)
                <==> model.slices.contains_key(other)) && after.slices[other]
                == model.slices[other]
        }),
{
    lemma_registered_valid(model, commit);
    lemma_highest_round(commit.certificates, highest);
    lemma_highest_attained(commit.certificates);
    let top = choose|c: CertificateModel| #[trigger]
        commit.certificates.contains(c) && c.round == highest_round(commit.certificates);
    assert(commit.certificates.contains(top));
}

/// Between two commits, a slice is sealed just if the frontier has come a whole window past its
/// highest round, or to the last round there is.
pub proof fn law_sealed_after_the_window(model: ExecutorModel, id: u64)
    requires
        model.settled(),
        model.slices.contains_key(id),
    ensures
        model.slices[id].sealed is Some <==> model.frontier >= model.slices[id].max_round
            + model.window || model.frontier == u64::MAX,
{
    assert(model.slice_valid(id));
    assert(!model.is_ready(id));
}

/// The frontier is the highest round that has been committed.
pub proof fn law_frontier(model: ExecutorModel, commit: CommitModel, c: CertificateModel)
    requires
        commit.certificates.contains(c),
    ensures
        ({
            let after = registered(model, commit);
            &&& after.frontier >= model.frontier
            &&& after.frontier >= c.round
            &&& after.frontier == model.frontier || exists|top: CertificateModel| #[trigger]
                commit.certificates.contains(top) && top.round == after.frontier
        }),
{
    lemma_frontier(model, commit);
    lemma_highest_round(commit.certificates, c);
    lemma_highest_attained(commit.certificates);
}

/// The certificates of a commit join in ascending rounds, each once.
pub proof fn law_joining_order(certificates: Seq<CertificateModel>, i: int, j: int)
    ensures
        by_round(certificates).to_multiset() == certificates.to_multiset(),
        0 <= i <= j < certificates.len() ==> by_round(certificates)[i].round <= by_round(
            certificates,
        )[j].round,
{
    lemma_by_round(certificates);
}

/// A certificate that joins is stored, raises the frontier to its round, and gets evidence that
/// starts in its round; of the others, neither certificates nor evidence come or go. Slices and
/// books stay as they are.
pub proof fn law_joining(model: ExecutorModel, c: CertificateModel, d: Digest)
    requires
        !model.evidence.contains_key(c.digest),
    ensures
        ({
            let after = commit_one(model, c);
            &&& after.certificates == model.certificates.insert(c.digest, c)
            &&& after.evidence.contains_key(d) <==> model.evidence.contains_key(d) || d == c.digest
            &&& after.evidence[c.digest].round == c.round
            &&& model.evidence.contains_key(d) ==> after.evidence[d].round
                == model.evidence[d].round
            &&& after.frontier >= c.round && after.frontier >= model.frontier
            &&& after.frontier == c.round || after.frontier == model.frontier
            &&& after.slices == model.slices
            &&& after.owners == model.owners
            &&& after.window == model.window && after.quorum == model.quorum && after.theta
                == model.theta
            &&& after.floor is Some && after.floor->0 <= c.round
            &&& model.floor is Some ==> after.floor->0 <= model.floor->0 && (after.floor->0
                == c.round || after.floor == model.floor)
            &&& model.floor is None ==> after.floor->0 == c.round
        }),
{
}

/// Ancestry is walked down to the lowest round of an active vertex.
pub proof fn law_floor(evidence: Map<Digest, Evidence>, floor: Option<Round>, d: Digest)
    requires
        is_floor(evidence, floor),
    ensures
        evidence.contains_key(d) ==> floor is Some && floor->0 <= evidence[d].round,
        floor is Some ==> exists|x: Digest| #[trigger]
            evidence.contains_key(x) && evidence[x].round == floor->0,
        lowest_round(evidence) == floor,
{
    lemma_lowest_round(evidence, floor);
}

/// A commit is entered in the books: its vertices belong to its slice from then on, all others stay
/// where they were, the vertices are counted, and the fingerprint of the prefix is extended by the
/// leader and by the set of the vertices.
pub proof fn law_books(model: ExecutorModel, commit: CommitModel, d: Digest)
    requires
        model.valid(),
        model.accepts(commit),
        commit.certificates.len() > 0,
    ensures
        ({
            let after = registered(model, commit);
            &&& after.owners.contains_key(d) <==> model.owners.contains_key(d)
                || commit.members().contains(d)
            &&& commit.members().contains(d) ==> after.owners[d] == commit.batch_index
            &&& model.owners.contains_key(d) ==> after.owners[d] == model.owners[d]
            &&& after.member_count == model.member_count + commit.certificates.len()
            &&& after.prefix == extended_prefix(
                model.prefix,
                commit.leader_round,
                commit.leader_digest,
                member_set_fingerprint(commit.members().to_set()),
            )
            &&& after.window == model.window
            &&& after.quorum == model.quorum
            &&& after.theta == model.theta
        }),
{
    lemma_registered_valid(model, commit);
    lemma_owners_stay(model, commit);
    lemma_joining_books(booked(model, commit), by_round(commit.certificates));
    if commit.members().contains(d) {
        let k = commit.members().index_of(d);
        assert(!model.owners.contains_key(commit.members()[k]));
    }
}

proof fn lemma_joining_books(model: ExecutorModel, certificates: Seq<CertificateModel>)
    ensures
        commit_all(model, certificates).member_count == model.member_count,
        commit_all(model, certificates).prefix == model.prefix,
    decreases certificates.len(),
{
    if certificates.len() > 0 {
        lemma_joining_books(model, certificates.drop_last());
    }
}

/// The order of a slice goes by what the executor holds when it is sealed.
pub proof fn law_snapshot(model: ExecutorModel)
    ensures
        model.snapshot().certificates == model.certificates,
        model.snapshot().evidence == model.evidence,
        model.snapshot().window == model.window,
        model.snapshot().quorum == model.quorum,
        model.snapshot().theta == model.theta,
{
}

/// A sealed slice holds the one linearization of its graph, and the round, the commit and the
/// prefix at which it was sealed, with the fingerprint of its order. It keeps its highest round and
/// its horizon.
pub proof fn law_sealing(model: ExecutorModel, id: u64, trigger: u64)
    requires
        model.snapshot().stands(model.slices[id].members),
    ensures
        ({
            let slice = model.sealed_slice(id, trigger);
            let nodes = model.slices[id].members.to_set();
            &&& slice.sealed is Some
            &&& is_linearization(
                model.certificates,
                nodes,
                model.snapshot().edges(nodes),
                model.snapshot().causal_edges(nodes),
                slice.sealed->0.components,
                slice.sealed->0.order,
            )
            &&& slice.members.len() == 0
            &&& slice.max_round == model.slices[id].max_round
            &&& slice.seal_horizon == model.slices[id].seal_horizon
            &&& slice.sealed->0.metrics.snapshot_round == model.frontier
            &&& slice.sealed->0.metrics.trigger_slice_id == trigger
            &&& slice.sealed->0.metrics.trigger_export_prefix_digest == model.prefix
            &&& slice.sealed->0.metrics.execution_order_digest == fingerprint(
                "MRV-EXECUTION-ORDER-v1".spec_bytes(),
                slice.sealed->0.order,
            )
        }),
{
    reveal(Snapshot::stands);
}

/// Sealing gives up the evidence of just the vertices that are sealed, and changes neither the
/// other slices nor anything else but the floor.
pub proof fn law_sealing_leaves_the_rest(
    model: ExecutorModel,
    ids: Set<u64>,
    trigger: u64,
    id: u64,
    d: Digest,
)
    requires
        model.valid(),
        forall|j: u64| #[trigger] ids.contains(j) ==> model.slices.contains_key(j),
    ensures
        ({
            let after = model.with_sealed(ids, trigger);
            &&& after.slices.dom() == model.slices.dom()
            &&& model.slices.contains_key(id) && !ids.contains(id) ==> after.slices[id]
                == model.slices[id]
            &&& after.evidence.contains_key(d) <==> model.evidence.contains_key(d) && !exists|j: u64| #[trigger]
                ids.contains(j) && model.slices[j].members.contains(d)
            &&& after.evidence.contains_key(d) ==> after.evidence[d] == model.evidence[d]
            &&& after.certificates == model.certificates
            &&& after.frontier == model.frontier
            &&& after.owners == model.owners
            &&& after.prefix == model.prefix
            &&& after.window == model.window
        }),
{
    let after = model.with_sealed(ids, trigger);
    assert(after.slices.dom() =~= model.slices.dom());
    if exists|j: u64| #[trigger] ids.contains(j) && model.slices[j].members.contains(d) {
        let j = choose|j: u64| #[trigger] ids.contains(j) && model.slices[j].members.contains(d);
        assert(ids.contains(j) && model.slices.contains_key(j));
        assert(model.members_of(ids).contains(d));
    }
}

/// A slice can be released just if neither it nor any slice with a lower number is unsealed, and
/// just the slices that can be are gone after the release.
pub proof fn law_release_blocks(model: ExecutorModel, id: u64, low: u64)
    requires
        model.slices.contains_key(id),
    ensures
        model.slices.contains_key(low) && low <= id && model.slices[low].sealed is None
            ==> !model.is_free(id),
        (forall|j: u64| #[trigger]
            model.slices.contains_key(j) && j <= id ==> model.slices[j].sealed is Some)
            ==> model.is_free(id),
        model.without_free().slices.contains_key(id) <==> !model.is_free(id),
        model.without_free().slices.contains_key(id) ==> model.without_free().slices[id]
            == model.slices[id],
        model.without_free().certificates == model.certificates,
        model.without_free().evidence == model.evidence,
{
}

/// What leaves is the slice as it was sealed, with the stored certificates of its vertices in the
/// order of the slice.
pub proof fn law_release(model: ExecutorModel, id: u64, k: int)
    ensures
        ({
            let release = model.release(id);
            let slice = model.slices[id];
            &&& release.slice_id == id
            &&& release.max_round == slice.max_round
            &&& release.seal_horizon == slice.seal_horizon
            &&& release.sealed == slice.sealed->0
            &&& release.certificates.len() == slice.sealed->0.order.len()
            &&& 0 <= k < release.certificates.len() ==> release.certificates[k]
                == model.certificates[slice.sealed->0.order[k]]
        }),
{
}

/// A certificate is kept just if it waits to be output, or if some vertex with evidence is of the
/// same round or a lower one. Nothing else changes, and what is kept is kept as it is.
pub proof fn law_collection(model: ExecutorModel, d: Digest)
    requires
        model.valid(),
        model.certificates.contains_key(d),
    ensures
        model.collected().certificates.contains_key(d) <==> (exists|id: u64| #[trigger]
            model.slices.contains_key(id) && model.slices[id].sealed is Some
                && model.slices[id].sealed->0.order.contains(d)) || (exists|x: Digest| #[trigger]
            model.evidence.contains_key(x) && model.evidence[x].round
                <= model.certificates[d].round),
        model.collected().certificates.contains_key(d) ==> model.collected().certificates[d]
            == model.certificates[d],
        model.collected().slices == model.slices,
        model.collected().evidence == model.evidence,
        model.collected().frontier == model.frontier,
        model.collected().owners == model.owners,
{
    if exists|id: u64| #[trigger]
        model.slices.contains_key(id) && model.slices[id].sealed is Some
            && model.slices[id].sealed->0.order.contains(d) {
        assert(model.is_queued(d));
    }
    if model.is_needed(d) && !model.is_queued(d) {
        let low = model.floor->0;
        let x = choose|x: Digest| #[trigger]
            model.evidence.contains_key(x) && model.evidence[x].round == low;
        assert(model.evidence.contains_key(x));
    }
    if exists|x: Digest| #[trigger]
        model.evidence.contains_key(x) && model.evidence[x].round
            <= model.certificates[d].round {
        let x = choose|x: Digest| #[trigger]
            model.evidence.contains_key(x) && model.evidence[x].round
                <= model.certificates[d].round;
        assert(model.floor is Some && model.floor->0 <= model.evidence[x].round);
    }
}

/// A commit is accepted just if its vertices are all different, none of them has ever been
/// committed, and no slice with its number waits; one without certificates needs no number.
pub proof fn law_accepts(model: ExecutorModel, commit: CommitModel)
    ensures
        model.accepts(commit) <==> {
            &&& forall|i: int, j: int|
                0 <= i < commit.certificates.len() && 0 <= j < commit.certificates.len() && i != j
                    ==> (#[trigger] commit.certificates[i]).digest != (
                #[trigger] commit.certificates[j]).digest
            &&& forall|i: int|
                0 <= i < commit.certificates.len() ==> !model.owners.contains_key(
                    (#[trigger] commit.certificates[i]).digest,
                )
            &&& commit.certificates.len() == 0 || !model.slices.contains_key(commit.batch_index)
        },
{
    let members = commit.members();
    assert(members.len() == commit.certificates.len());
    if model.accepts(commit) {
        assert forall|i: int, j: int|
            0 <= i < commit.certificates.len() && 0 <= j < commit.certificates.len() && i
                != j implies (#[trigger] commit.certificates[i]).digest != (
        #[trigger] commit.certificates[j]).digest by {
            assert(members[i] != members[j]);
        }
        assert forall|i: int| 0 <= i < commit.certificates.len() implies !model.owners.contains_key(
            (#[trigger] commit.certificates[i]).digest,
        ) by {
            assert(!model.owners.contains_key(members[i]));
        }
    }
    if (forall|i: int, j: int|
        0 <= i < commit.certificates.len() && 0 <= j < commit.certificates.len() && i != j ==> (
        #[trigger] commit.certificates[i]).digest != (#[trigger] commit.certificates[j]).digest) {
        assert forall|i: int, j: int|
            0 <= i < members.len() && 0 <= j < members.len() && i != j implies members[i]
            != members[j] by {
            assert(commit.certificates[i].digest != commit.certificates[j].digest);
        }
    }
}

/// The first vertex of a commit that belongs to a slice already is one that was committed before or
/// that stands earlier in the commit, and no earlier one is.
pub proof fn law_first_repetition(model: ExecutorModel, commit: CommitModel, place: int, k: int)
    requires
        0 <= place < commit.certificates.len(),
        model.repeats_at(commit, place),
    ensures
        model.owners.contains_key(commit.certificates[place].digest) || exists|i: int|
            0 <= i < place && (#[trigger] commit.certificates[i]).digest
                == commit.certificates[place].digest,
        0 <= k < place ==> !model.owners.contains_key(commit.certificates[k].digest),
        (forall|i: int|
            0 <= i < place ==> (#[trigger] commit.certificates[i]).digest
                != commit.certificates[place].digest) ==> model.owners_with(
            commit,
            place,
        )[commit.certificates[place].digest] == model.owners[commit.certificates[place].digest],
{
    let d = commit.members()[place];
    let before = commit.members().take(place);
    if before.contains(d) {
        let i = before.index_of(d);
        assert(before[i] == d);
        assert(commit.certificates[i].digest == d);
    }
    if 0 <= k < place {
        assert(!model.owners_with(commit, k).contains_key(commit.members()[k]));
    }
}

/// What is reported of a new slice is what is held of it.
pub proof fn law_registration(
    model: ExecutorModel,
    commit: CommitModel,
    highest: CertificateModel,
)
    requires
        model.valid(),
        model.accepts(commit),
        commit.certificates.len() <= usize::MAX,
        model.member_count + commit.certificates.len() <= u64::MAX,
        commit.certificates.contains(highest),
        forall|c: CertificateModel| #[trigger]
            commit.certificates.contains(c) ==> c.round <= highest.round,
    ensures
        ({
            let report = model.registration(commit);
            let after = registered(model, commit);
            &&& report.slice_id == commit.batch_index
            &&& report.leader_round == commit.leader_round
            &&& report.leader_digest == commit.leader_digest
            &&& report.slice_size == commit.certificates.len()
            &&& report.seal_horizon == after.slices[commit.batch_index].seal_horizon
            &&& report.cumulative_member_count == after.member_count
            &&& report.export_prefix_digest == after.prefix
            &&& report.member_set_digest == member_set_fingerprint(commit.members().to_set())
            &&& report.member_order_digest == fingerprint(
                "MRV-MEMBER-ORDER-v1".spec_bytes(),
                commit.members(),
            )
        }),
{
    law_horizon(model, commit, highest, commit.batch_index);
    assert(commit.certificates.len() > 0);
    law_books(model, commit, highest.digest);
}

/// What is reported of a slice that has just been sealed: how many vertices it holds, its rounds,
/// and how many rounds after its highest one it was sealed.
pub proof fn law_report(model: ExecutorModel, ids: Set<u64>, trigger: u64, id: u64)
    requires
        model.valid(),
        model.is_ready(id),
        ids.contains(id),
        model.snapshot().stands(model.slices[id].members),
        model.slices[id].members.len() <= usize::MAX,
    ensures
        ({
            let report = model.with_sealed(ids, trigger).report(id);
            &&& report.slice_id == id
            &&& report.mrv_window == model.window
            &&& report.slice_size == model.slices[id].members.len()
            &&& report.slice_max_round == model.slices[id].max_round
            &&& report.seal_horizon == model.slices[id].seal_horizon
            &&& model.frontier >= model.slices[id].max_round
            &&& report.seal_wait_rounds == model.frontier - model.slices[id].max_round
            &&& report.sealed == model.sealed_slice(id, trigger).sealed->0.metrics
        }),
{
    assert(model.slice_valid(id));
    lemma_vertex_counts(model.snapshot(), model.slices[id].members);
    assert(model.with_sealed(ids, trigger).slices[id] == model.sealed_slice(id, trigger));
}

/// What is missing of a vertex that is still to be output: its certificate, or, in an unsealed
/// slice, its evidence.
pub proof fn law_missing(model: ExecutorModel, id: u64, d: Digest)
    ensures
        model.missing(id, d) is None <==> model.certificates.contains_key(d) && (
        model.slices[id].sealed is Some || model.evidence.contains_key(d)),
        model.missing(id, d) == Some(LifecycleReason::MissingQueuedOutputStore)
            <==> model.slices[id].sealed is Some && !model.certificates.contains_key(d),
        model.missing(id, d) == Some(LifecycleReason::MissingUnsealedStore)
            <==> model.slices[id].sealed is None && !model.certificates.contains_key(d),
        model.missing(id, d) == Some(LifecycleReason::MissingUnsealedAufState)
            <==> model.slices[id].sealed is None && model.certificates.contains_key(d)
            && !model.evidence.contains_key(d),
{
}

/// All is complete just if no vertex that is still to be output lacks anything, and a violation
/// names a vertex that does.
pub proof fn law_complete(
    model: ExecutorModel,
    violation: LifecycleViolation,
    id: u64,
    d: Digest,
)
    ensures
        model.complete() && model.slices.contains_key(id) && (match model.slices[id].sealed {
            Some(sealed) => sealed.order,
            None => model.slices[id].members,
        }).contains(d) ==> model.certificates.contains_key(d) && (model.slices[id].sealed is Some
            || model.evidence.contains_key(d)),
        model.first_violation(violation) ==> !model.complete() && model.slices.contains_key(
            violation.slice_id,
        ) && (match model.slices[violation.slice_id].sealed {
            Some(sealed) => sealed.order,
            None => model.slices[violation.slice_id].members,
        }).contains(violation.member) && !(model.certificates.contains_key(violation.member) && (
        model.slices[violation.slice_id].sealed is Some || model.evidence.contains_key(
            violation.member,
        ))),
{
    if model.complete() && model.slices.contains_key(id) && model.pending(id).contains(d) {
        assert(model.complete_up_to(id, model.pending(id).len() as int));
        let k = model.pending(id).index_of(d);
        assert(model.missing(id, model.pending(id)[k]) is None);
    }
    if model.first_violation(violation) {
        let at = violation.slice_id;
        let k = choose|k: int|
            0 <= k < model.pending(at).len() && model.complete_up_to(at, k)
                && #[trigger] model.pending(at)[k] == violation.member && model.missing(
                at,
                violation.member,
            ) == Some(violation.reason);
        assert(model.pending(at).contains(violation.member));
        if model.complete() {
            assert(model.complete_up_to(at, model.pending(at).len() as int));
            assert(model.missing(at, model.pending(at)[k]) is None);
        }
    }
}

/// An empty commit changes nothing.
pub proof fn law_empty_commit(model: ExecutorModel, commit: CommitModel)
    requires
        commit.certificates.len() == 0,
    ensures
        model.next(commit) == model,
{
}

/// After a commit, just those slices are left that cannot be released, the certificates are dropped
/// that are no longer needed where a slice was sealed, and none are where none was.
pub proof fn law_next(model: ExecutorModel, commit: CommitModel, id: u64)
    requires
        commit.certificates.len() > 0,
    ensures
        ({
            let start = registered(model, commit);
            let sealed = start.with_sealed(start.ready(), commit.batch_index);
            let after = model.next(commit);
            &&& after.slices.contains_key(id) <==> sealed.slices.contains_key(id)
                && !sealed.is_free(id)
            &&& after.slices.contains_key(id) ==> after.slices[id] == sealed.slices[id]
            &&& after.evidence == sealed.evidence
            &&& after.frontier == start.frontier
            &&& after.owners == start.owners
            &&& after.prefix == start.prefix
            &&& (forall|j: u64| !#[trigger] start.is_ready(j)) ==> after.certificates
                == start.certificates
            &&& start.is_ready(id) ==> after.certificates
                == sealed.without_free().collected().certificates
        }),
{
    let start = registered(model, commit);
    if forall|j: u64| !#[trigger] start.is_ready(j) {
        assert(start.ready() =~= Set::<u64>::empty());
    }
    if start.is_ready(id) {
        assert(start.ready().contains(id));
    }
}

/// What is missing is told in words that leave no doubt.
pub proof fn law_violation_texts()
    ensures
        LifecycleReason::MissingQueuedOutputStore.words()
            == "MRV queued output member is missing from the committed store"@,
        LifecycleReason::MissingUnsealedStore.words()
            == "MRV unsealed member is missing from the committed store"@,
        LifecycleReason::MissingUnsealedAufState.words()
            == "MRV unsealed member is missing visibility state"@,
        LifecycleReason::MissingQueuedOutputStore.word() == "missing_queued_output_store"@,
        LifecycleReason::MissingUnsealedStore.word() == "missing_unsealed_store"@,
        LifecycleReason::MissingUnsealedAufState.word() == "missing_unsealed_auf_state"@,
{
}

} // verus!
