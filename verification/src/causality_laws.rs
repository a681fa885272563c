//! What the committed prefix says of the order in which vertices leave over a run of commits.

use vstd::prelude::*;

use crate::evidence_laws::{
    covered, law_evidence_reflects_the_prefix, law_new_executor_reflects_nothing, lemma_old_paths,
    lemma_path_is_stored, lemma_registered_reflects, lemma_shorter, lemma_stored_is_older,
    parents_come_first, prefix_steps, reflects,
};
use crate::executor_laws::law_released_certificates;
use crate::invariants::{lemma_by_round_contains, lemma_members, lemma_registered_valid};
use crate::linearize::{joined, lemma_joined_contains};
use crate::model::{by_round, registered, ExecutorModel, ReleaseModel};
use crate::ordering::Snapshot;
use crate::ordering_laws::{
    law_ancestry_walk_is_complete, law_causal_order_is_respected, lemma_across,
    lemma_within, precedes,
};
use crate::relation::{reach, reach_in};
use crate::run_laws::{
    accounts, after_commits, delivered, digests, holds, is_run, lemma_map_permutes, lemma_run,
    numbers_increase, sent_vertices, slices_of, vertices,
};
use crate::state::MrvExecutor;
use crate::types::{CertificateModel, CommitModel, Digest, Round};

verus! {

/// The certificates of the commits in the order in which they join: commit by commit, and within a
/// commit by round.
pub open spec fn committed_prefix(history: Seq<CommitModel>) -> Seq<CertificateModel>
    decreases history.len(),
{
    if history.len() == 0 {
        Seq::empty()
    } else {
        committed_prefix(history.drop_last()) + by_round(history.last().certificates)
    }
}

/// Whether the prefix holds a certificate of the vertex.
pub open spec fn in_prefix(prefix: Seq<CertificateModel>, d: Digest) -> bool {
    exists|k: int| 0 <= k < prefix.len() && (#[trigger] prefix[k]).digest == d
}

/// Whether every listed vertex stands after those that the prefix shows to be its ancestors.
pub open spec fn respects(prefix: Seq<CertificateModel>, order: Seq<Digest>) -> bool {
    forall|a: Digest, b: Digest|
        #![trigger order.contains(a), order.contains(b)]
        order.contains(a) && order.contains(b) && a != b && reach(prefix_steps(prefix), b, a)
            ==> precedes(order, a, b)
}

/// Whether the evidence reflects the prefix, and every slice that is sealed or has left respects
/// its ancestry.
pub open spec fn orderly(
    model: ExecutorModel,
    prefix: Seq<CertificateModel>,
    sent: Seq<ReleaseModel>,
) -> bool {
    &&& reflects(model, prefix)
    &&& forall|i: int|
        0 <= i < sent.len() ==> respects(prefix, digests((#[trigger] sent[i]).certificates))
    &&& forall|id: u64| #[trigger]
        model.slices.contains_key(id) && model.slices[id].sealed is Some ==> respects(
            prefix,
            model.slices[id].sealed->0.order,
        )
}

/// What follows a prefix opens no new path from the vertices of the prefix.
proof fn lemma_paths_stay(
    prefix: Seq<CertificateModel>,
    rest: Seq<CertificateModel>,
    x: Digest,
    d: Digest,
)
    requires
        parents_come_first(prefix + rest),
        in_prefix(prefix, x),
        reach(prefix_steps(prefix + rest), x, d),
    ensures
        reach(prefix_steps(prefix), x, d),
        !in_prefix(rest, d),
    decreases rest.len(),
{
    if rest.len() == 0 {
        assert(prefix + rest =~= prefix);
    } else {
        let init = rest.drop_last();
        let last = rest.last();
        assert(prefix + rest =~= (prefix + init).push(last));
        lemma_shorter(prefix + init, last);
        let k = choose|k: int| 0 <= k < prefix.len() && (#[trigger] prefix[k]).digest == x;
        assert((prefix + init)[k].digest == x);
        let n = choose|n: nat| #[trigger] reach_in(prefix_steps(prefix + rest), n, x, d);
        lemma_old_paths(prefix + init, last, n, x, d);
        lemma_paths_stay(prefix, init, x, d);
        if in_prefix(rest, d) {
            let j = choose|j: int| 0 <= j < rest.len() && (#[trigger] rest[j]).digest == d;
            if j < init.len() {
                assert(init[j].digest == d);
            }
        }
    }
}

/// A beginning of a prefix is in order too.
proof fn lemma_beginning(prefix: Seq<CertificateModel>, rest: Seq<CertificateModel>)
    requires
        parents_come_first(prefix + rest),
    ensures
        parents_come_first(prefix),
    decreases rest.len(),
{
    if rest.len() == 0 {
        assert(prefix + rest =~= prefix);
    } else {
        assert(prefix + rest =~= (prefix + rest.drop_last()).push(rest.last()));
        lemma_shorter(prefix + rest.drop_last(), rest.last());
        lemma_beginning(prefix, rest.drop_last());
    }
}

/// An order that respects a prefix respects what follows it.
proof fn lemma_respects_longer(
    prefix: Seq<CertificateModel>,
    rest: Seq<CertificateModel>,
    order: Seq<Digest>,
)
    requires
        parents_come_first(prefix + rest),
        respects(prefix, order),
        forall|d: Digest| #[trigger] order.contains(d) ==> in_prefix(prefix, d),
    ensures
        respects(prefix + rest, order),
{
    assert forall|a: Digest, b: Digest|
        #![trigger order.contains(a), order.contains(b)]
        order.contains(a) && order.contains(b) && a != b && reach(
            prefix_steps(prefix + rest),
            b,
            a,
        ) implies precedes(order, a, b) by {
        lemma_paths_stay(prefix, rest, b, a);
    }
}

/// The vertices of a commit are in the prefix.
proof fn lemma_members_in_prefix(history: Seq<CommitModel>, i: int, d: Digest)
    requires
        0 <= i < history.len(),
        history[i].members().contains(d),
    ensures
        in_prefix(committed_prefix(history), d),
    decreases history.len(),
{
    let init = history.drop_last();
    let last = history.last();
    let before = committed_prefix(init);
    let sorted = by_round(last.certificates);
    let prefix = committed_prefix(history);
    if i == history.len() - 1 {
        lemma_members(last);
        let c = choose|c: CertificateModel| #[trigger]
            last.certificates.contains(c) && c.digest == d;
        lemma_by_round_contains(last.certificates, c);
        let k = sorted.index_of(c);
        assert(sorted[k] == c);
        assert(prefix[before.len() + k] == c);
    } else {
        assert(init[i] == history[i]);
        lemma_members_in_prefix(init, i, d);
        let k = choose|k: int| 0 <= k < before.len() && (#[trigger] before[k]).digest == d;
        assert(prefix[k] == before[k]);
    }
}

/// The prefix of the first commits, and what follows it.
proof fn lemma_prefix_splits(history: Seq<CommitModel>, count: int)
    requires
        0 <= count <= history.len(),
    ensures
        committed_prefix(history) == committed_prefix(history.take(count)) + committed_prefix(
            history.skip(count),
        ),
    decreases history.len(),
{
    let first = history.take(count);
    let rest = history.skip(count);
    if count == history.len() {
        assert(first =~= history);
        assert(rest =~= Seq::empty());
    } else {
        let init = history.drop_last();
        lemma_prefix_splits(init, count);
        assert(init.take(count) =~= first);
        assert(rest.drop_last() =~= init.skip(count));
        assert(rest.last() == history.last());
        assert(committed_prefix(history) =~= committed_prefix(first) + (committed_prefix(
            rest.drop_last(),
        ) + by_round(history.last().certificates)));
    }
}

/// What the prefix shows of ancestry among the vertices of a slice that is about to be sealed is
/// what its order goes by.
proof fn lemma_sealed_respects(model: ExecutorModel, prefix: Seq<CertificateModel>, id: u64)
    requires
        model.valid(),
        model.is_ready(id),
        reflects(model, prefix),
        model.snapshot().stands(model.slices[id].members),
    ensures
        respects(prefix, model.snapshot().order(model.slices[id].members.to_set())),
{
    reveal(Snapshot::stands);
    let s = model.snapshot();
    let members = model.slices[id].members;
    let nodes = members.to_set();
    let order = s.order(nodes);
    assert(model.slice_valid(id));
    lemma_stored_is_older(model.certificates, prefix);
    assert forall|a: Digest, b: Digest|
        #![trigger order.contains(a), order.contains(b)]
        order.contains(a) && order.contains(b) && a != b && reach(
            prefix_steps(prefix),
            b,
            a,
        ) implies precedes(order, a, b) by {
        assert(order.to_set().contains(a) && order.to_set().contains(b));
        assert(members.contains(a) && members.contains(b));
        assert(model.evidence.contains_key(a));
        let t = choose|t: int| #[trigger] covered(model.certificates, prefix, a, t);
        assert(prefix.contains(model.certificates[b]));
        let i = prefix.index_of(model.certificates[b]);
        assert(prefix[i] == model.certificates[b]);
        assert(prefix[i].digest == b);
        let n = choose|n: nat| #[trigger] reach_in(prefix_steps(prefix), n, b, a);
        lemma_path_is_stored(model.certificates, prefix, n, i, a, t);
        law_ancestry_walk_is_complete(model.certificates, a, b);
        assert(s.causal(a, b));
        law_causal_order_is_respected(s, nodes, s.components(nodes), order, a, b);
    }
}

/// The vertices of a slice that waits are in the prefix.
proof fn lemma_pending_in_prefix(
    model: ExecutorModel,
    history: Seq<CommitModel>,
    sent: Seq<ReleaseModel>,
    id: u64,
    d: Digest,
)
    requires
        accounts(model, history, sent),
        model.slices.contains_key(id),
        model.pending(id).contains(d),
    ensures
        in_prefix(committed_prefix(history), d),
{
    let i = choose|i: int|
        sent.len() <= i < history.len() && (#[trigger] history[i]).batch_index == id;
    assert(holds(model, history[i]));
    vstd::seq_lib::to_multiset_contains(model.pending(id), d);
    vstd::seq_lib::to_multiset_contains(history[i].members(), d);
    lemma_members_in_prefix(history, i, d);
}

/// What has left of a slice are the vertices of its commit.
proof fn lemma_sent_members(
    history: Seq<CommitModel>,
    sent: Seq<ReleaseModel>,
    i: int,
    d: Digest,
)
    requires
        delivered(history, sent),
        0 <= i < sent.len(),
    ensures
        digests(sent[i].certificates).contains(d) <==> history[i].members().contains(d),
{
    let f = |certificate: CertificateModel| certificate.digest;
    assert(sent[i].certificates.to_multiset() == history[i].certificates.to_multiset());
    lemma_map_permutes(sent[i].certificates, history[i].certificates, f);
    assert(digests(sent[i].certificates) =~= sent[i].certificates.map_values(f));
    assert(history[i].members() =~= history[i].certificates.map_values(f));
    vstd::seq_lib::to_multiset_contains(digests(sent[i].certificates), d);
    vstd::seq_lib::to_multiset_contains(history[i].members(), d);
}

/// Once the slices that can be sealed are, every sealed slice respects the prefix.
proof fn lemma_all_sealed_respect(
    model: ExecutorModel,
    commit: CommitModel,
    history: Seq<CommitModel>,
    sent: Seq<ReleaseModel>,
    id: u64,
)
    requires
        model.settled(),
        model.accepts(commit),
        commit.certificates.len() > 0,
        forall|id: u64| #[trigger]
            registered(model, commit).is_ready(id) ==> registered(model, commit).snapshot().stands(
                registered(model, commit).slices[id].members,
            ),
        accounts(model, history, sent),
        orderly(model, committed_prefix(history), sent),
        parents_come_first(committed_prefix(history) + by_round(commit.certificates)),
        model.sealed_by(commit).slices.contains_key(id),
        model.sealed_by(commit).slices[id].sealed is Some,
    ensures
        respects(
            committed_prefix(history) + by_round(commit.certificates),
            model.sealed_by(commit).slices[id].sealed->0.order,
        ),
{
    let start = registered(model, commit);
    let sealed = model.sealed_by(commit);
    let prefix = committed_prefix(history);
    let rest = by_round(commit.certificates);
    lemma_registered_valid(model, commit);
    assert(start.slices.contains_key(id));
    if start.is_ready(id) {
        assert(start.ready().contains(id));
        lemma_registered_reflects(model, commit, prefix);
        lemma_sealed_respects(start, prefix + rest, id);
        assert(sealed.slices[id] == start.sealed_slice(id, commit.batch_index));
    } else {
        assert(!start.ready().contains(id));
        assert(sealed.slices[id] == start.slices[id]);
        assert(id != commit.batch_index);
        assert(model.slices.contains_key(id) && model.slices[id] == start.slices[id]);
        let order = model.slices[id].sealed->0.order;
        assert forall|d: Digest| #[trigger] order.contains(d) implies in_prefix(prefix, d) by {
            assert(model.pending(id) == order);
            lemma_pending_in_prefix(model, history, sent, id, d);
        }
        lemma_respects_longer(prefix, rest, order);
    }
}

/// A commit keeps the slices that are sealed or have left in order.
proof fn lemma_commit_stays_orderly(
    model: ExecutorModel,
    commit: CommitModel,
    history: Seq<CommitModel>,
    sent: Seq<ReleaseModel>,
    out: Seq<ReleaseModel>,
)
    requires
        model.settled(),
        model.accepts(commit),
        commit.certificates.len() > 0,
        model.hands_out(commit, out),
        accounts(model, history, sent),
        orderly(model, committed_prefix(history), sent),
        parents_come_first(committed_prefix(history.push(commit))),
    ensures
        orderly(model.next(commit), committed_prefix(history.push(commit)), sent + out),
{
    let sealed = model.sealed_by(commit);
    let after = model.next(commit);
    let prefix = committed_prefix(history);
    let rest = by_round(commit.certificates);
    let longer = prefix + rest;
    let all = sent + out;
    assert(history.push(commit).drop_last() =~= history);
    assert(committed_prefix(history.push(commit)) == longer);
    law_evidence_reflects_the_prefix(model, commit, prefix);
    assert forall|i: int| 0 <= i < all.len() implies respects(
        longer,
        digests((#[trigger] all[i]).certificates),
    ) by {
        if i < sent.len() {
            assert(all[i] == sent[i]);
            let order = digests(sent[i].certificates);
            assert forall|d: Digest| #[trigger] order.contains(d) implies in_prefix(prefix, d) by {
                lemma_sent_members(history, sent, i, d);
                lemma_members_in_prefix(history, i, d);
            }
            lemma_respects_longer(prefix, rest, order);
        } else {
            let k = i - sent.len();
            let id = out[k].slice_id;
            assert(all[i] == out[k]);
            assert(sealed.is_free(id) && out[k] == sealed.release(id));
            assert(sealed.slices.contains_key(id) && sealed.slices[id].sealed is Some);
            lemma_all_sealed_respect(model, commit, history, sent, id);
            law_released_certificates(sealed, id);
            assert(digests(out[k].certificates) =~= sealed.slices[id].sealed->0.order);
        }
    }
    assert forall|id: u64| #[trigger]
        after.slices.contains_key(id) && after.slices[id].sealed is Some implies respects(
        longer,
        after.slices[id].sealed->0.order,
    ) by {
        assert(sealed.slices.contains_key(id) && sealed.slices[id] == after.slices[id]);
        lemma_all_sealed_respect(model, commit, history, sent, id);
    }
}

/// A run stays orderly.
proof fn lemma_run_is_orderly(
    executor: MrvExecutor,
    committee_size: usize,
    window: Round,
    commits: Seq<CommitModel>,
    outs: Seq<Seq<ReleaseModel>>,
)
    requires
        executor.is_new(committee_size, window),
        window > 0,
        is_run(executor@, commits, outs),
        numbers_increase(slices_of(commits)),
        parents_come_first(committed_prefix(slices_of(commits))),
    ensures
        orderly(
            after_commits(executor@, commits),
            committed_prefix(slices_of(commits)),
            joined(outs),
        ),
    decreases commits.len(),
{
    if commits.len() == 0 {
        assert(executor@.certificates =~= Map::<Digest, CertificateModel>::empty());
        assert(executor@.evidence.dom() =~= Set::<Digest>::empty());
        law_new_executor_reflects_nothing(executor@);
        assert(committed_prefix(slices_of(commits)) =~= Seq::empty());
    } else {
        let init = commits.drop_last();
        let last = commits.last();
        let history = slices_of(init);
        let model = after_commits(executor@, init);
        assert(numbers_increase(history)) by {
            assert forall|i: int, j: int| 0 <= i < j < history.len() implies (
            #[trigger] history[i]).batch_index < (#[trigger] history[j]).batch_index by {
                assert(slices_of(commits)[i] == history[i] && slices_of(commits)[j] == history[j]);
            }
        }
        if last.certificates.len() > 0 {
            assert(history.push(last).drop_last() =~= history);
            lemma_beginning(committed_prefix(history), by_round(last.certificates));
        }
        lemma_run_is_orderly(executor, committee_size, window, init, outs.drop_last());
        lemma_run(executor, committee_size, window, init, outs.drop_last());
        let sent = joined(outs.drop_last());
        if last.certificates.len() == 0 {
            assert(joined(outs) =~= sent);
        } else {
            lemma_commit_stays_orderly(model, last, history, sent, outs.last());
        }
    }
}

/// An ancestor was committed in the same commit or in an earlier one.
proof fn lemma_ancestor_commit(history: Seq<CommitModel>, i: int, k: int, a: Digest, b: Digest)
    requires
        parents_come_first(committed_prefix(history)),
        0 <= i < history.len(),
        0 <= k < history.len(),
        history[i].members().contains(a),
        history[k].members().contains(b),
        reach(prefix_steps(committed_prefix(history)), b, a),
    ensures
        i <= k,
{
    if i > k {
        let first = history.take(k + 1);
        let rest = history.skip(k + 1);
        lemma_prefix_splits(history, k + 1);
        assert(first[k] == history[k]);
        assert(rest[i - k - 1] == history[i]);
        lemma_members_in_prefix(first, k, b);
        lemma_members_in_prefix(rest, i - k - 1, a);
        lemma_paths_stay(committed_prefix(first), committed_prefix(rest), b, a);
    }
}

/// Over any run of commits from a new executor, numbered in the order in which they come, a vertex
/// leaves only after all of its committed ancestors, of its own slice and of earlier ones, as long
/// as parents are of lower rounds than their children and are not committed after them. Dropping
/// certificates that are no longer needed does not change that.
pub proof fn law_run_is_causal(
    executor: MrvExecutor,
    committee_size: usize,
    window: Round,
    commits: Seq<CommitModel>,
    outs: Seq<Seq<ReleaseModel>>,
    a: Digest,
    b: Digest,
)
    requires
        executor.is_new(committee_size, window),
        window > 0,
        is_run(executor@, commits, outs),
        numbers_increase(slices_of(commits)),
        parents_come_first(committed_prefix(slices_of(commits))),
        vertices(slices_of(commits)).contains(a),
        sent_vertices(joined(outs)).contains(b),
        a != b,
        reach(prefix_steps(committed_prefix(slices_of(commits))), b, a),
    ensures
        precedes(sent_vertices(joined(outs)), a, b),
{
    let history = slices_of(commits);
    let sent = joined(outs);
    let prefix = committed_prefix(history);
    let all = history.map_values(|commit: CommitModel| commit.members());
    let parts = sent.map_values(|release: ReleaseModel| digests(release.certificates));
    lemma_run(executor, committee_size, window, commits, outs);
    lemma_run_is_orderly(executor, committee_size, window, commits, outs);
    lemma_joined_contains(all, a);
    lemma_joined_contains(parts, b);
    let i = choose|i: int| 0 <= i < all.len() && (#[trigger] all[i]).contains(a);
    let k = choose|k: int| 0 <= k < parts.len() && (#[trigger] parts[k]).contains(b);
    assert(history[i].members().contains(a));
    assert(parts[k] == digests(sent[k].certificates));
    lemma_sent_members(history, sent, k, b);
    lemma_ancestor_commit(history, i, k, a, b);
    assert(parts[i] == digests(sent[i].certificates));
    lemma_sent_members(history, sent, i, a);
    if i < k {
        lemma_across(parts, i, k, a, b);
    } else {
        assert(respects(prefix, digests(sent[k].certificates)));
        assert(precedes(parts[k], a, b));
        let (x, y) = choose|x: int, y: int|
            0 <= x < y < parts[k].len() && #[trigger] parts[k][x] == a && #[trigger] parts[k][y]
                == b;
        lemma_within(parts, k, x, y);
    }
}

/// Over any run of commits, the evidence of the active vertices is what the whole committed prefix
/// shows, although certificates that are no longer needed are dropped.
pub proof fn law_run_reflects_the_prefix(
    executor: MrvExecutor,
    committee_size: usize,
    window: Round,
    commits: Seq<CommitModel>,
    outs: Seq<Seq<ReleaseModel>>,
)
    requires
        executor.is_new(committee_size, window),
        window > 0,
        is_run(executor@, commits, outs),
        numbers_increase(slices_of(commits)),
        parents_come_first(committed_prefix(slices_of(commits))),
    ensures
        reflects(after_commits(executor@, commits), committed_prefix(slices_of(commits))),
{
    lemma_run_is_orderly(executor, committee_size, window, commits, outs);
}

} // verus!
