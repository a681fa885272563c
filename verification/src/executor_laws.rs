//! Laws of the executor over commits.

use vstd::prelude::*;

use crate::executor::{
    lemma_all_free_left, lemma_lowest_free, lemma_out_releases, lemma_release_valid, SliceReport,
};
use crate::invariants::{lemma_next_settled, lemma_registered_valid};
use crate::lifecycle::{lemma_by_round, rounds_ascend};
use crate::model::{
    by_round, commit_one, count_up_to, registered, ExecutorModel, ReleaseModel,
};
use crate::ordered::{increasing, lemma_increasing_unique, Key};
use crate::ordering::Snapshot;
use crate::ordering_laws::{
    ancestry_steps, law_order_is_permutation, law_visibility_walk_is_complete, parents_are_older,
};
use crate::relation::reach;
use crate::state::MrvExecutor;
use crate::topology::lemma_take_next;
use crate::types::{CertificateModel, CommitModel, Digest, PublicKey, Round};
use crate::visibility::{causally_before, later, makes_visible, parent_steps, seen_at};

verus! {

/// Between two commits a slice is sealed just if the frontier has reached its horizon, which lies
/// a window after its highest round.
pub proof fn law_sealed_at_the_horizon(model: ExecutorModel, id: u64)
    requires
        model.settled(),
        model.slices.contains_key(id),
    ensures
        model.slices[id].seal_horizon == later(model.slices[id].max_round, model.window as int),
        model.slices[id].sealed is Some <==> model.frontier >= model.slices[id].seal_horizon,
{
    assert(model.slice_valid(id));
    assert(!model.is_ready(id));
}

/// Evidence is kept of the vertices of unsealed slices, and of no others.
pub proof fn law_evidence_of_unsealed_slices(model: ExecutorModel, d: Digest)
    requires
        model.valid(),
    ensures
        model.evidence.contains_key(d) <==> model.is_active(d),
{
    if model.is_active(d) {
        let id = choose|id: u64| #[trigger]
            model.slices.contains_key(id) && model.slices[id].sealed is None
                && model.slices[id].members.contains(d);
        assert(model.slice_valid(id));
    }
}

/// Every vertex that is still to be output has its certificate and, in an unsealed slice, its
/// evidence.
pub proof fn law_members_are_complete(model: ExecutorModel)
    requires
        model.valid(),
    ensures
        model.complete(),
{
    assert forall|id: u64| #[trigger] model.slices.contains_key(id) implies model.complete_up_to(
        id,
        model.pending(id).len() as int,
    ) by {
        assert(model.slice_valid(id));
        assert forall|k: int| 0 <= k < model.pending(id).len() implies model.missing(
            id,
            #[trigger] model.pending(id)[k],
        ) is None by {
            assert(model.pending(id).contains(model.pending(id)[k]));
        }
    }
}

/// Dropping certificates that are not needed changes no answer about ancestry above the floor: the
/// steps that such a walk takes are all kept.
pub proof fn law_collection_keeps_ancestry(model: ExecutorModel, above: Round)
    requires
        model.floor is Some,
        model.floor->0 <= above,
    ensures
        parent_steps(model.collected().certificates, above) == parent_steps(
            model.certificates,
            above,
        ),
{
    let few = parent_steps(model.collected().certificates, above);
    let many = parent_steps(model.certificates, above);
    assert forall|e: (Digest, Digest)| #[trigger] many.contains(e) implies few.contains(e) by {
        assert(model.is_needed(e.0));
    }
    assert(few =~= many);
}

/// Dropping certificates that are not needed changes neither what precedes what among the active
/// vertices nor which active vertices a certificate makes visible.
pub proof fn law_collection_keeps_answers(model: ExecutorModel, a: Digest, b: Digest, c: Digest)
    requires
        model.valid(),
        model.evidence.contains_key(a),
        model.evidence.contains_key(b),
    ensures
        causally_before(model.collected().certificates, a, b) == causally_before(
            model.certificates,
            a,
            b,
        ),
        makes_visible(model.collected().certificates, model.floor->0, c, a) == makes_visible(
            model.certificates,
            model.floor->0,
            c,
            a,
        ),
{
    assert(model.floor is Some);
    let after = model.collected();
    assert(model.is_needed(a) && model.is_needed(b));
    assert(after.certificates.contains_key(a) && after.certificates[a] == model.certificates[a]);
    assert(after.certificates.contains_key(b) && after.certificates[b] == model.certificates[b]);
    law_collection_keeps_ancestry(model, model.certificates[a].round);
    law_collection_keeps_ancestry(model, model.floor->0);
}

/// Dropping certificates that are not needed does not change the order of an unsealed slice.
pub proof fn law_collection_keeps_order(model: ExecutorModel, id: u64)
    requires
        model.valid(),
        model.slices.contains_key(id),
        model.slices[id].sealed is None,
    ensures
        ({
            let nodes = model.slices[id].members.to_set();
            &&& model.collected().snapshot().edges(nodes) == model.snapshot().edges(nodes)
            &&& model.collected().snapshot().causal_edges(nodes) == model.snapshot().causal_edges(
                nodes,
            )
            &&& forall|d: Digest| #[trigger]
                nodes.contains(d) ==> model.collected().certificates.contains_key(d)
                    && model.collected().certificates[d] == model.certificates[d]
        }),
{
    let nodes = model.slices[id].members.to_set();
    let s = model.snapshot();
    let t = model.collected().snapshot();
    assert(model.slice_valid(id));
    assert forall|d: Digest| #[trigger] nodes.contains(d) implies model.evidence.contains_key(d)
        && t.certificates.contains_key(d) && t.certificates[d] == s.certificates[d] by {
        assert(model.slices[id].members.contains(d));
        assert(model.floor is Some);
        assert(model.is_needed(d));
    }
    assert forall|a: Digest, b: Digest|
        nodes.contains(a) && nodes.contains(b) implies #[trigger] s.causal(a, b) == t.causal(a, b) by {
        law_collection_keeps_answers(model, a, b, a);
    }
    assert(s.causal_edges(nodes) =~= t.causal_edges(nodes)) by {
        assert forall|e: (Digest, Digest)| #[trigger]
            s.causal_edges(nodes).contains(e) <==> t.causal_edges(nodes).contains(e) by {
            assert(nodes.contains(e.0) && nodes.contains(e.1) ==> s.causal(e.0, e.1) == t.causal(
                e.0,
                e.1,
            ));
        }
    }
    assert(s.edges(nodes) =~= t.edges(nodes)) by {
        assert forall|e: (Digest, Digest)| #[trigger]
            s.edges(nodes).contains(e) <==> t.edges(nodes).contains(e) by {
            if nodes.contains(e.0) && nodes.contains(e.1) {
                assert(s.causal(e.0, e.1) == t.causal(e.0, e.1));
                assert(s.causal(e.1, e.0) == t.causal(e.1, e.0));
            }
        }
    }
}

/// A sealed slice is final: a later commit either leaves it as it is or releases it as it was
/// sealed, with the certificates that were stored then.
pub proof fn law_sealed_slice_is_final(
    model: ExecutorModel,
    commit: CommitModel,
    out: Seq<ReleaseModel>,
    id: u64,
)
    requires
        model.settled(),
        model.accepts(commit),
        commit.certificates.len() > 0,
        model.sealed_by(commit).releases(out),
        model.slices.contains_key(id),
        model.slices[id].sealed is Some,
    ensures
        model.next(commit).slices.contains_key(id) ==> model.next(commit).slices[id]
            == model.slices[id],
        !model.next(commit).slices.contains_key(id) ==> exists|i: int|
            0 <= i < out.len() && #[trigger] out[i] == model.release(id),
{
    let start = registered(model, commit);
    let sealed = model.sealed_by(commit);
    lemma_registered_valid(model, commit);
    assert(id != commit.batch_index);
    assert(start.slices[id] == model.slices[id]);
    assert(!start.ready().contains(id));
    assert(sealed.slices[id] == model.slices[id]);
    if !model.next(commit).slices.contains_key(id) {
        assert(sealed.is_free(id));
        let i = choose|i: int| 0 <= i < out.len() && (#[trigger] out[i]).slice_id == id;
        assert(out[i] == sealed.release(id));
        assert(model.slice_valid(id));
        let order = model.slices[id].sealed->0.order;
        assert(order.map_values(|d: Digest| sealed.certificates[d]) =~= order.map_values(
            |d: Digest| model.certificates[d],
        )) by {
            assert forall|k: int| 0 <= k < order.len() implies sealed.certificates[#[trigger] order[k]]
                == model.certificates[order[k]] by {
                assert(order.contains(order[k]));
            }
        }
        assert(sealed.release(id) =~= model.release(id));
    }
}

/// The executor after the slices have been released one by one.
pub open spec fn after_releases(model: ExecutorModel, ids: Seq<u64>) -> ExecutorModel
    decreases ids.len(),
{
    if ids.len() == 0 {
        model
    } else {
        after_releases(model, ids.drop_last()).without_slice(ids.last())
    }
}

/// Whether each of the slices is the next to be released once those before it have left.
pub open spec fn can_leave(model: ExecutorModel, ids: Seq<u64>) -> bool
    decreases ids.len(),
{
    ids.len() > 0 ==> can_leave(model, ids.drop_last()) && after_releases(
        model,
        ids.drop_last(),
    ).is_next(ids.last())
}

/// Slices can be released one by one, and this can be broken off at any point: so far just these
/// slices have left, those with the lowest numbers in increasing order, each as it was when the
/// first left; every other slice, the store and the evidence are as they were. Once no slice can
/// be released any more, all have left that could be released at first.
pub proof fn law_release_one_by_one(model: ExecutorModel, ids: Seq<u64>)
    requires
        can_leave(model, ids),
    ensures
        after_releases(model, ids) == (ExecutorModel {
            slices: model.slices.remove_keys(ids.to_set()),
            ..model
        }),
        increasing(ids),
        forall|k: int| 0 <= k < ids.len() ==> model.is_free(#[trigger] ids[k]),
        forall|k: int, j: u64|
            0 <= k < ids.len() && #[trigger] after_releases(model, ids).slices.contains_key(j)
                ==> #[trigger] ids[k] < j,
        forall|k: int|
            0 <= k < ids.len() ==> after_releases(model, ids.take(k)).release(#[trigger] ids[k])
                == model.release(ids[k]),
        (forall|id: u64| !#[trigger] after_releases(model, ids).is_free(id)) ==> after_releases(
            model,
            ids,
        ) == model.without_free() && model.releases(ids.map_values(|id: u64| model.release(id))),
    decreases ids.len(),
{
    if ids.len() == 0 {
        assert(model.slices.remove_keys(ids.to_set()) =~= model.slices);
    } else {
        let init = ids.drop_last();
        let last = ids.last();
        let middle = after_releases(model, init);
        law_release_one_by_one(model, init);
        assert forall|j: u64| #[trigger]
            model.slices.contains_key(j) && !init.to_set().contains(j) implies last <= j by {
            assert(middle.slices.contains_key(j));
        }
        assert(middle.slices.contains_key(last));
        lemma_lowest_free(model, init, last);
        assert forall|j: u64| ids.to_set().contains(j) <==> init.to_set().contains(j) || j
            == last by {
            lemma_take_next(ids, init.len() as int);
            assert(ids.take(init.len() as int) =~= init);
            assert(ids.take(ids.len() as int) =~= ids);
        }
        assert(after_releases(model, ids).slices =~= model.slices.remove_keys(ids.to_set()));
        assert forall|k: int| 0 <= k < ids.len() implies model.is_free(#[trigger] ids[k]) by {
            if k < init.len() {
                assert(init[k] == ids[k]);
            }
        }
        assert forall|k: int, j: u64|
            0 <= k < ids.len() && #[trigger] after_releases(model, ids).slices.contains_key(
                j,
            ) implies #[trigger] ids[k] < j by {
            assert(middle.slices.contains_key(j));
            if k < init.len() {
                assert(init[k] == ids[k]);
            }
        }
        assert(increasing(ids)) by {
            assert forall|i: int, j: int| 0 <= i < j < ids.len() implies #[trigger] ids[i].ord()
                < #[trigger] ids[j].ord() by {
                assert(init[i] == ids[i]);
                if j < init.len() {
                    assert(init[i].ord() < init[j].ord());
                }
            }
        }
        assert forall|k: int| 0 <= k < ids.len() implies after_releases(model, ids.take(k)).release(
            #[trigger] ids[k],
        ) == model.release(ids[k]) by {
            if k < init.len() {
                assert(init.take(k) =~= ids.take(k));
                assert(init[k] == ids[k]);
            } else {
                assert(ids.take(k) =~= init);
                assert(middle.release(last) =~= model.release(last));
            }
        }
    }
    if forall|id: u64| !#[trigger] after_releases(model, ids).is_free(id) {
        assert(after_releases(model, ids) == model.without(ids.to_set()));
        lemma_all_free_left(model, ids);
        lemma_out_releases(model, ids, ids.map_values(|id: u64| model.release(id)));
    }
}

/// A commit can be taken step by step: once it is registered and slices are sealed, slices are
/// released one by one until none can be, and then the store is collected where slices were sealed.
/// What leaves and what is left is as if the commit had been taken as a whole.
pub proof fn law_commit_in_steps(model: ExecutorModel, commit: CommitModel, ids: Seq<u64>)
    requires
        model.settled(),
        model.accepts(commit),
        commit.certificates.len() > 0,
        model.sealed_by(commit).valid(),
        can_leave(model.sealed_by(commit), ids),
        forall|id: u64| !#[trigger] after_releases(model.sealed_by(commit), ids).is_free(id),
    ensures
        ({
            let left = after_releases(model.sealed_by(commit), ids);
            let after = if registered(model, commit).ready() == Set::<u64>::empty() {
                left
            } else {
                left.collected()
            };
            &&& after == model.next(commit)
            &&& after.settled()
        }),
        model.sealed_by(commit).releases(
            ids.map_values(|id: u64| model.sealed_by(commit).release(id)),
        ),
{
    law_release_one_by_one(model.sealed_by(commit), ids);
    lemma_release_valid(model.sealed_by(commit));
    lemma_next_settled(model, commit);
}

/// Slices leave in the order of their numbers: what leaves comes before everything that stays.
pub proof fn law_release_order(
    model: ExecutorModel,
    commit: CommitModel,
    out: Seq<ReleaseModel>,
    i: int,
    id: u64,
)
    requires
        commit.certificates.len() > 0,
        model.sealed_by(commit).releases(out),
        0 <= i < out.len(),
        model.next(commit).slices.contains_key(id),
    ensures
        out[i].slice_id < id,
{
    let sealed = model.sealed_by(commit);
    assert(sealed.slices.contains_key(id) && !sealed.is_free(id));
    let low = choose|j: u64| #[trigger]
        sealed.slices.contains_key(j) && j <= id && sealed.slices[j].sealed is None;
    assert(sealed.is_free(out[i].slice_id));
}

/// Over two commits, what leaves first has the lower numbers, as long as slices are numbered in
/// the order in which they are committed.
pub proof fn law_release_order_over_commits(
    model: ExecutorModel,
    first: CommitModel,
    second: CommitModel,
    first_out: Seq<ReleaseModel>,
    second_out: Seq<ReleaseModel>,
    i: int,
    j: int,
)
    requires
        model.settled(),
        model.accepts(first),
        model.next(first).settled(),
        model.next(first).accepts(second),
        first.certificates.len() > 0,
        second.certificates.len() > 0,
        model.sealed_by(first).releases(first_out),
        model.next(first).sealed_by(second).releases(second_out),
        0 <= i < first_out.len(),
        0 <= j < second_out.len(),
        first_out[i].slice_id < second.batch_index,
    ensures
        first_out[i].slice_id < second_out[j].slice_id,
{
    let middle = model.next(first);
    let sealed = middle.sealed_by(second);
    let id = second_out[j].slice_id;
    lemma_registered_valid(middle, second);
    assert(sealed.is_free(id));
    assert(registered(middle, second).slices.contains_key(id));
    if id != second.batch_index {
        assert(middle.slices.contains_key(id));
        law_release_order(model, first, first_out, i, id);
    }
}

/// Two executors that hold the same and take the same commit release the same slices with the same
/// certificates in the same order, and report the same of the slices that they seal.
pub proof fn law_outcome_is_determined(
    model: ExecutorModel,
    ids: Set<u64>,
    one: Seq<ReleaseModel>,
    other: Seq<ReleaseModel>,
    one_reports: Seq<SliceReport>,
    other_reports: Seq<SliceReport>,
)
    ensures
        model.releases(one) && model.releases(other) ==> one == other,
        model.reports(ids, one_reports) && model.reports(ids, other_reports) ==> one_reports
            == other_reports,
{
    if model.releases(one) && model.releases(other) {
        let a = one.map_values(|r: ReleaseModel| r.slice_id);
        let b = other.map_values(|r: ReleaseModel| r.slice_id);
        assert forall|id: u64| #[trigger] a.to_set().contains(id) <==> model.is_free(id) by {
            lemma_release_ids(model, one, id);
        }
        assert forall|id: u64| #[trigger] b.to_set().contains(id) <==> model.is_free(id) by {
            lemma_release_ids(model, other, id);
        }
        assert(a.to_set() =~= b.to_set());
        lemma_increasing_unique(a, b);
        assert forall|i: int| 0 <= i < one.len() implies #[trigger] one[i] == other[i] by {
            assert(a[i] == b[i]);
        }
        assert(one =~= other);
    }
    if model.reports(ids, one_reports) && model.reports(ids, other_reports) {
        let a = one_reports.map_values(|r: SliceReport| r.slice_id);
        let b = other_reports.map_values(|r: SliceReport| r.slice_id);
        assert forall|id: u64| #[trigger] a.to_set().contains(id) <==> ids.contains(id) by {
            lemma_report_ids(model, ids, one_reports, id);
        }
        assert forall|id: u64| #[trigger] b.to_set().contains(id) <==> ids.contains(id) by {
            lemma_report_ids(model, ids, other_reports, id);
        }
        assert(a.to_set() =~= b.to_set());
        lemma_increasing_unique(a, b);
        assert forall|i: int| 0 <= i < one_reports.len() implies #[trigger] one_reports[i]
            == other_reports[i] by {
            assert(a[i] == b[i]);
        }
        assert(one_reports =~= other_reports);
    }
}

pub proof fn lemma_release_ids(model: ExecutorModel, out: Seq<ReleaseModel>, id: u64)
    requires
        model.releases(out),
    ensures
        out.map_values(|r: ReleaseModel| r.slice_id).to_set().contains(id) <==> model.is_free(id),
{
    let ids = out.map_values(|r: ReleaseModel| r.slice_id);
    if ids.contains(id) {
        let i = ids.index_of(id);
        assert(ids[i] == id);
        assert(out[i].slice_id == id);
    }
    if model.is_free(id) {
        let i = choose|i: int| 0 <= i < out.len() && (#[trigger] out[i]).slice_id == id;
        assert(ids[i] == id);
    }
}

proof fn lemma_report_ids(
    model: ExecutorModel,
    sealed: Set<u64>,
    reports: Seq<SliceReport>,
    id: u64,
)
    requires
        model.reports(sealed, reports),
    ensures
        reports.map_values(|r: SliceReport| r.slice_id).to_set().contains(id) <==> sealed.contains(
            id,
        ),
{
    let ids = reports.map_values(|r: SliceReport| r.slice_id);
    if ids.contains(id) {
        let i = ids.index_of(id);
        assert(ids[i] == id);
        assert(reports[i].slice_id == id);
    }
    if sealed.contains(id) {
        let i = choose|i: int| 0 <= i < reports.len() && (#[trigger] reports[i]).slice_id == id;
        assert(ids[i] == id);
    }
}

/// With `f` the number of faulty creators that a committee withstands, a quorum of `2f + 1` can be
/// reached without them, and they alone stay below the threshold of `f + 1`.
pub proof fn law_thresholds(executor: MrvExecutor, committee_size: usize, window: Round)
    requires
        executor.is_new(committee_size, window),
        committee_size > 0,
    ensures
        ({
            let f = executor.delta_threshold - 1;
            &&& 3 * f + 1 <= committee_size < 3 * f + 4
            &&& executor.reach_threshold == 2 * f + 1
            &&& executor.reach_threshold <= committee_size - f
            &&& f < executor.delta_threshold
        }),
{
}

/// Of a released slice, the certificates of its vertices leave in execution order.
pub proof fn law_released_certificates(model: ExecutorModel, id: u64)
    requires
        model.valid(),
        model.slices.contains_key(id),
        model.slices[id].sealed is Some,
    ensures
        model.release(id).certificates.map_values(|c: CertificateModel| c.digest)
            == model.slices[id].sealed->0.order,
{
    assert(model.slice_valid(id));
    let order = model.slices[id].sealed->0.order;
    let digests = model.release(id).certificates.map_values(|c: CertificateModel| c.digest);
    assert forall|k: int| 0 <= k < order.len() implies #[trigger] digests[k] == order[k] by {
        assert(order.contains(order[k]));
    }
    assert(digests =~= order);
}

/// The vertices of a slice are output exactly once: its sealed order is a permutation of its
/// members, and no other slice holds any of them.
pub proof fn law_exactly_once(model: ExecutorModel, one: u64, other: u64, trigger: u64, d: Digest)
    requires
        model.valid(),
        model.is_ready(one),
        model.snapshot().stands(model.slices[one].members),
    ensures
        model.sealed_slice(one, trigger).sealed->0.order.to_multiset()
            == model.slices[one].members.to_multiset(),
        model.slices.contains_key(other) && other != one && model.slices[one].members.contains(d)
            ==> !model.pending(other).contains(d),
{
    reveal(Snapshot::stands);
    let members = model.slices[one].members;
    let s = model.snapshot();
    assert(model.slice_valid(one));
    law_order_is_permutation(
        s.certificates,
        members,
        s.edges(members.to_set()),
        s.causal_edges(members.to_set()),
        s.components(members.to_set()),
        s.order(members.to_set()),
    );
    if model.slices.contains_key(other) && other != one && members.contains(d) {
        assert(model.slice_valid(other));
    }
}

/// Whether the vertex waits in a slice to be output.
pub open spec fn waits(model: ExecutorModel, d: Digest) -> bool {
    exists|id: u64| #[trigger] model.slices.contains_key(id) && model.pending(id).contains(d)
}

/// Whether the vertex is among those that leave.
pub open spec fn leaves(out: Seq<ReleaseModel>, d: Digest) -> bool {
    exists|i: int| 0 <= i < out.len() && (#[trigger] out[i]).sealed.order.contains(d)
}

/// No vertex is lost and none is doubled: what waited before a commit and what the commit brings
/// is what waits afterwards and what leaves, and nothing both waits and leaves.
pub proof fn law_nothing_is_lost_or_doubled(
    model: ExecutorModel,
    commit: CommitModel,
    out: Seq<ReleaseModel>,
    d: Digest,
)
    requires
        model.settled(),
        model.accepts(commit),
        commit.certificates.len() > 0,
        model.sealed_by(commit).valid(),
        forall|id: u64| #[trigger]
            registered(model, commit).is_ready(id) ==> registered(model, commit).snapshot().stands(
                registered(model, commit).slices[id].members,
            ),
        model.sealed_by(commit).releases(out),
    ensures
        waits(model, d) || commit.members().contains(d) <==> waits(model.next(commit), d) || leaves(
            out,
            d,
        ),
        !(waits(model.next(commit), d) && leaves(out, d)),
{
    let start = registered(model, commit);
    let sealed = model.sealed_by(commit);
    let after = model.next(commit);
    lemma_registered_valid(model, commit);
    lemma_registered_waits(model, commit, d);
    assert forall|id: u64| #[trigger] start.slices.contains_key(id) implies (start.pending(
        id,
    ).contains(d) <==> sealed.pending(id).contains(d)) by {
        lemma_sealed_pending(model, commit, id, d);
    }
    assert(waits(start, d) <==> waits(sealed, d)) by {
        if waits(start, d) {
            let id = choose|id: u64| #[trigger]
                start.slices.contains_key(id) && start.pending(id).contains(d);
            assert(sealed.slices.contains_key(id));
        }
        if waits(sealed, d) {
            let id = choose|id: u64| #[trigger]
                sealed.slices.contains_key(id) && sealed.pending(id).contains(d);
            assert(start.slices.contains_key(id));
        }
    }
    if waits(sealed, d) {
        let id = choose|id: u64| #[trigger]
            sealed.slices.contains_key(id) && sealed.pending(id).contains(d);
        if sealed.is_free(id) {
            let i = choose|i: int| 0 <= i < out.len() && (#[trigger] out[i]).slice_id == id;
            assert(out[i] == sealed.release(id));
            assert(out[i].sealed.order.contains(d));
        } else {
            assert(after.slices.contains_key(id) && after.pending(id) == sealed.pending(id));
        }
    }
    if leaves(out, d) {
        let i = choose|i: int| 0 <= i < out.len() && (#[trigger] out[i]).sealed.order.contains(d);
        let id = out[i].slice_id;
        assert(sealed.is_free(id) && out[i] == sealed.release(id));
        assert(sealed.slices.contains_key(id) && sealed.pending(id).contains(d));
        assert(sealed.slice_valid(id));
        if waits(after, d) {
            let j = choose|j: u64| #[trigger]
                after.slices.contains_key(j) && after.pending(j).contains(d);
            assert(sealed.slices.contains_key(j) && sealed.pending(j).contains(d));
            assert(sealed.slice_valid(j));
        }
    }
    if waits(after, d) {
        let j = choose|j: u64| #[trigger]
            after.slices.contains_key(j) && after.pending(j).contains(d);
        assert(sealed.slices.contains_key(j) && sealed.pending(j).contains(d));
    }
}

proof fn lemma_registered_waits(model: ExecutorModel, commit: CommitModel, d: Digest)
    requires
        model.valid(),
        model.accepts(commit),
        commit.certificates.len() > 0,
    ensures
        waits(registered(model, commit), d) <==> waits(model, d) || commit.members().contains(d),
{
    let start = registered(model, commit);
    lemma_registered_valid(model, commit);
    if waits(model, d) {
        let id = choose|id: u64| #[trigger]
            model.slices.contains_key(id) && model.pending(id).contains(d);
        assert(id != commit.batch_index);
        assert(start.slices.contains_key(id) && start.pending(id) == model.pending(id));
    }
    if commit.members().contains(d) {
        assert(start.slices.contains_key(commit.batch_index));
        assert(start.pending(commit.batch_index) == commit.members());
    }
    if waits(start, d) {
        let id = choose|id: u64| #[trigger]
            start.slices.contains_key(id) && start.pending(id).contains(d);
        if id != commit.batch_index {
            assert(model.slices.contains_key(id) && start.pending(id) == model.pending(id));
        }
    }
}

proof fn lemma_sealed_pending(model: ExecutorModel, commit: CommitModel, id: u64, d: Digest)
    requires
        registered(model, commit).slices.contains_key(id),
        registered(model, commit).is_ready(id) ==> registered(model, commit).snapshot().stands(
            registered(model, commit).slices[id].members,
        ),
    ensures
        registered(model, commit).pending(id).contains(d) <==> model.sealed_by(commit).pending(
            id,
        ).contains(d),
{
    let start = registered(model, commit);
    let sealed = model.sealed_by(commit);
    if start.ready().contains(id) {
        reveal(Snapshot::stands);
        let nodes = start.slices[id].members.to_set();
        let order = start.snapshot().order(nodes);
        assert(sealed.pending(id) == order);
        assert(order.to_set().contains(d) <==> nodes.contains(d));
    } else {
        assert(sealed.slices[id] == start.slices[id]);
    }
}

/// A commit is refused, or its vertices are new: no vertex is registered twice.
pub proof fn law_no_vertex_twice(model: ExecutorModel, commit: CommitModel, again: CommitModel, d: Digest)
    requires
        model.valid(),
        model.accepts(commit),
        commit.certificates.len() > 0,
        commit.members().contains(d),
        again.members().contains(d),
    ensures
        !registered(model, commit).accepts(again),
{
    lemma_owners_stay(model, commit);
    let k = again.members().index_of(d);
    assert(again.members()[k] == d);
    assert(registered(model, commit).owners.contains_key(d));
}

pub proof fn lemma_owners_stay(model: ExecutorModel, commit: CommitModel)
    ensures
        registered(model, commit).owners == crate::model::booked(model, commit).owners,
{
    lemma_joining_owners(
        crate::model::booked(model, commit),
        by_round(commit.certificates),
    );
}

proof fn lemma_joining_owners(model: ExecutorModel, certificates: Seq<CertificateModel>)
    ensures
        crate::model::commit_all(model, certificates).owners == model.owners,
    decreases certificates.len(),
{
    if certificates.len() > 0 {
        lemma_joining_owners(model, certificates.drop_last());
    }
}

/// A certificate that joins takes nothing away from the evidence: every creator that had seen a
/// vertex in a round still has.
pub proof fn law_evidence_grows(
    model: ExecutorModel,
    certificate: CertificateModel,
    d: Digest,
    round: Round,
)
    requires
        model.evidence.contains_key(d),
    ensures
        commit_one(model, certificate).evidence.contains_key(d),
        commit_one(model, certificate).evidence[d].round == model.evidence[d].round,
        seen_at(model.evidence, d, round).subset_of(
            seen_at(commit_one(model, certificate).evidence, d, round),
        ),
{
}

/// A certificate that joins counts for a vertex just if it is or descends from the vertex: it adds
/// its creator, in its round, and changes nothing else.
pub proof fn law_evidence_is_ancestry(
    model: ExecutorModel,
    certificate: CertificateModel,
    d: Digest,
    round: Round,
    creator: PublicKey,
)
    requires
        model.valid(),
        !model.certificates.contains_key(certificate.digest),
        parents_are_older(commit_one(model, certificate).certificates),
        model.evidence.contains_key(d) || d == certificate.digest,
    ensures
        seen_at(commit_one(model, certificate).evidence, d, round).contains(creator) <==> seen_at(
            model.evidence,
            d,
            round,
        ).contains(creator) || (creator == certificate.origin && round == certificate.round
            && reach(
            ancestry_steps(commit_one(model, certificate).certificates),
            certificate.digest,
            d,
        )),
{
    let after = commit_one(model, certificate);
    let low = after.floor->0;
    assert(!model.evidence.contains_key(certificate.digest));
    assert(after.floor is Some);
    if d != certificate.digest {
        assert(model.certificates.contains_key(d));
        assert(model.evidence[d].round >= model.floor->0);
        assert(after.certificates[d] == model.certificates[d]);
    }
    law_visibility_walk_is_complete(after.certificates, low, certificate.digest, d);
}

/// Sorting by round keeps the certificates of one round in the order in which they came.
pub proof fn law_rounds_are_stable(certificates: Seq<CertificateModel>, round: Round)
    ensures
        rounds_ascend(by_round(certificates)),
        by_round(certificates).to_multiset() == certificates.to_multiset(),
        by_round(certificates).filter(|c: CertificateModel| c.round == round)
            == certificates.filter(|c: CertificateModel| c.round == round),
    decreases certificates.len(),
{
    lemma_by_round(certificates);
    let keep = |c: CertificateModel| c.round == round;
    if certificates.len() > 0 {
        let init = certificates.drop_last();
        let last = certificates.last();
        let rest = by_round(init);
        law_rounds_are_stable(init, round);
        let place = count_up_to(rest, last.round) as int;
        crate::lifecycle::lemma_count_at_front(rest, last.round);
        crate::counting::lemma_count_bound(rest, |c: CertificateModel| c.round <= last.round);
        let front = rest.take(place);
        let back = rest.skip(place);
        let longer = rest.insert(place, last);
        assert(rest =~= front + back);
        assert(longer =~= front.push(last) + back);
        Seq::filter_distributes_over_add(front, back, keep);
        Seq::filter_distributes_over_add(front.push(last), back, keep);
        assert(front.push(last) =~= front + seq![last]);
        Seq::filter_distributes_over_add(front, seq![last], keep);
        assert(certificates =~= init + seq![last]);
        Seq::filter_distributes_over_add(init, seq![last], keep);
        lemma_filter_one(last, keep);
        if last.round == round {
            assert forall|i: int| 0 <= i < back.len() implies !keep(#[trigger] back[i]) by {
                assert(back[i] == rest[place + i]);
            }
            lemma_filter_none(back, keep);
            assert(longer.filter(keep) =~= rest.filter(keep) + seq![last]);
        } else {
            assert(longer.filter(keep) =~= rest.filter(keep));
        }
        assert(longer.filter(keep) =~= certificates.filter(keep));
    }
}

proof fn lemma_filter_one(item: CertificateModel, keep: spec_fn(CertificateModel) -> bool)
    ensures
        seq![item].filter(keep) == (if keep(item) {
            seq![item]
        } else {
            Seq::empty()
        }),
{
    reveal_with_fuel(Seq::filter, 2);
    assert(seq![item].drop_last() =~= Seq::empty());
    assert(seq![item].filter(keep) =~= (if keep(item) {
        seq![item]
    } else {
        Seq::empty()
    }));
}

proof fn lemma_filter_none(
    items: Seq<CertificateModel>,
    keep: spec_fn(CertificateModel) -> bool,
)
    requires
        forall|i: int| 0 <= i < items.len() ==> !keep(#[trigger] items[i]),
    ensures
        items.filter(keep) == Seq::<CertificateModel>::empty(),
    decreases items.len(),
{
    reveal(Seq::filter);
    if items.len() > 0 {
        let init = items.drop_last();
        assert forall|i: int| 0 <= i < init.len() implies !keep(#[trigger] init[i]) by {
            assert(init[i] == items[i]);
        }
        lemma_filter_none(init, keep);
        assert(!keep(items[items.len() - 1]));
    }
}

} // verus!
