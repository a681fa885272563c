//! What leaves the executor over a run of commits.

use vstd::prelude::*;

use crate::executor::lemma_release_valid;
use crate::executor_laws::{
    law_exactly_once, law_outcome_is_determined, lemma_owners_stay, lemma_release_ids,
};
use crate::invariants::{
    lemma_by_round_contains, lemma_highest_round, lemma_members, lemma_next_settled,
    lemma_registered_valid,
};
use crate::lifecycle::lemma_by_round;
use crate::linearize::{joined, lemma_joined_push};
use crate::model::{
    booked, by_round, commit_all, highest_round, registered, ExecutorModel, ReleaseModel,
};
use crate::ordered::{increasing, lemma_increasing_unique};
use crate::state::MrvExecutor;
use crate::types::{CertificateModel, CommitModel, Digest, Round};
use crate::visibility::later;

verus! {

/// The round that the frontier has to reach before the slice of the commit can be sealed: a window
/// after its highest round.
pub open spec fn horizon(commit: CommitModel, window: Round) -> int {
    later(highest_round(commit.certificates), window as int)
}

/// The highest round of all certificates of the commits, or zero.
pub open spec fn highest_of_all(history: Seq<CommitModel>) -> Round
    decreases history.len(),
{
    if history.len() == 0 {
        0
    } else {
        let rest = highest_of_all(history.drop_last());
        let last = highest_round(history.last().certificates);
        if last > rest {
            last
        } else {
            rest
        }
    }
}

/// Whether the commits are numbered in the order in which they come.
pub open spec fn numbers_increase(history: Seq<CommitModel>) -> bool {
    forall|i: int, j: int|
        0 <= i < j < history.len() ==> (#[trigger] history[i]).batch_index < (
        #[trigger] history[j]).batch_index
}

/// Whether the first `count` commits are the longest prefix whose horizons the frontier has reached.
pub open spec fn is_reached_prefix(
    history: Seq<CommitModel>,
    window: Round,
    frontier: Round,
    count: int,
) -> bool {
    &&& 0 <= count <= history.len()
    &&& forall|i: int| 0 <= i < count ==> frontier >= horizon(#[trigger] history[i], window)
    &&& count < history.len() ==> frontier < horizon(history[count], window)
}

/// Whether what has left is one permutation of the certificates of each of the first commits, one
/// commit after the other.
pub open spec fn delivered(history: Seq<CommitModel>, sent: Seq<ReleaseModel>) -> bool {
    &&& sent.len() <= history.len()
    &&& forall|i: int|
        0 <= i < sent.len() ==> (#[trigger] sent[i]).slice_id == history[i].batch_index
            && sent[i].certificates.to_multiset() == history[i].certificates.to_multiset()
}

/// The vertices of the commits.
pub open spec fn vertices(history: Seq<CommitModel>) -> Seq<Digest> {
    joined(history.map_values(|commit: CommitModel| commit.members()))
}

/// The vertices that have left, in the order in which they left.
pub open spec fn sent_vertices(sent: Seq<ReleaseModel>) -> Seq<Digest> {
    joined(sent.map_values(|release: ReleaseModel| digests(release.certificates)))
}

/// The digests of the certificates.
pub open spec fn digests(certificates: Seq<CertificateModel>) -> Seq<Digest> {
    certificates.map_values(|certificate: CertificateModel| certificate.digest)
}

/// Whether the slice of the commit waits, with all of its certificates.
pub open spec fn holds(model: ExecutorModel, commit: CommitModel) -> bool {
    let id = commit.batch_index;
    &&& model.slices.contains_key(id)
    &&& model.slices[id].max_round == highest_round(commit.certificates)
    &&& model.pending(id).to_multiset() == commit.members().to_multiset()
    &&& forall|c: CertificateModel| #[trigger]
        commit.certificates.contains(c) ==> model.certificates.contains_key(c.digest)
            && model.certificates[c.digest] == c
}

/// Whether the executor accounts for all commits of the history and for what has left: the slices
/// of the longest prefix whose horizons the highest round seen has reached have left, and the
/// others wait.
pub open spec fn accounts(
    model: ExecutorModel,
    history: Seq<CommitModel>,
    sent: Seq<ReleaseModel>,
) -> bool {
    &&& numbers_increase(history)
    &&& vertices(history).no_duplicates()
    &&& forall|d: Digest| #[trigger]
        vertices(history).contains(d) ==> model.owners.contains_key(d)
    &&& model.frontier == highest_of_all(history)
    &&& is_reached_prefix(history, model.window, model.frontier, sent.len() as int)
    &&& delivered(history, sent)
    &&& forall|id: u64| #[trigger]
        model.slices.contains_key(id) ==> exists|i: int|
            sent.len() <= i < history.len() && (#[trigger] history[i]).batch_index == id
    &&& forall|i: int| sent.len() <= i < history.len() ==> holds(model, #[trigger] history[i])
}

/// The commits that are not empty.
pub open spec fn slices_of(commits: Seq<CommitModel>) -> Seq<CommitModel>
    decreases commits.len(),
{
    if commits.len() == 0 {
        commits
    } else if commits.last().certificates.len() == 0 {
        slices_of(commits.drop_last())
    } else {
        slices_of(commits.drop_last()).push(commits.last())
    }
}

/// The executor after the commits.
pub open spec fn after_commits(start: ExecutorModel, commits: Seq<CommitModel>) -> ExecutorModel
    decreases commits.len(),
{
    if commits.len() == 0 {
        start
    } else {
        after_commits(start, commits.drop_last()).next(commits.last())
    }
}

/// Whether the executor takes the commits one after the other, and this is what leaves on account
/// of each.
pub open spec fn is_run(
    start: ExecutorModel,
    commits: Seq<CommitModel>,
    outs: Seq<Seq<ReleaseModel>>,
) -> bool
    decreases commits.len(),
{
    &&& outs.len() == commits.len()
    &&& commits.len() > 0 ==> {
        let model = after_commits(start, commits.drop_last());
        &&& is_run(start, commits.drop_last(), outs.drop_last())
        &&& model.accepts(commits.last())
        &&& model.hands_out(commits.last(), outs.last())
    }
}

/// Items that are mapped one by one stay a permutation.
pub proof fn lemma_map_permutes<A, B>(one: Seq<A>, other: Seq<A>, f: spec_fn(A) -> B)
    requires
        one.to_multiset() == other.to_multiset(),
    ensures
        one.map_values(f).to_multiset() == other.map_values(f).to_multiset(),
    decreases one.len(),
{
    broadcast use vstd::seq_lib::group_to_multiset_ensures;

    assert(one.len() == one.to_multiset().len() == other.len());
    if one.len() == 0 {
        assert(one.map_values(f) =~= other.map_values(f));
    } else {
        let last = one.last();
        let init = one.drop_last();
        assert(one.contains(last));
        assert(other.to_multiset().count(last) > 0);
        let k = other.index_of(last);
        assert(other[k] == last);
        let rest = other.remove(k);
        assert(init.push(last) =~= one);
        assert(init.to_multiset() =~= one.to_multiset().remove(last));
        assert(rest.to_multiset() == other.to_multiset().remove(last));
        lemma_map_permutes(init, rest, f);
        assert(one.map_values(f) =~= init.map_values(f).push(f(last)));
        assert(other.map_values(f) =~= rest.map_values(f).insert(k, f(last)));
    }
}

/// The highest round is that of some certificate.
pub proof fn lemma_highest_attained(certificates: Seq<CertificateModel>)
    requires
        certificates.len() > 0,
    ensures
        exists|c: CertificateModel| #[trigger]
            certificates.contains(c) && c.round == highest_round(certificates),
    decreases certificates.len(),
{
    let init = certificates.drop_last();
    let last = certificates.last();
    assert(certificates.contains(last));
    if init.len() == 0 {
        assert(highest_round(init) == 0);
    } else {
        lemma_highest_attained(init);
        let c = choose|c: CertificateModel| #[trigger]
            init.contains(c) && c.round == highest_round(init);
        let k = init.index_of(c);
        assert(certificates[k] == c);
        assert(certificates.contains(c));
    }
}

/// Sorting by round keeps the highest round.
proof fn lemma_highest_by_round(certificates: Seq<CertificateModel>)
    ensures
        highest_round(by_round(certificates)) == highest_round(certificates),
{
    let sorted = by_round(certificates);
    lemma_by_round(certificates);
    if certificates.len() > 0 {
        lemma_highest_attained(certificates);
        let c = choose|c: CertificateModel| #[trigger]
            certificates.contains(c) && c.round == highest_round(certificates);
        lemma_by_round_contains(certificates, c);
        lemma_highest_round(sorted, c);
        lemma_highest_attained(sorted);
        let d = choose|d: CertificateModel| #[trigger]
            sorted.contains(d) && d.round == highest_round(sorted);
        lemma_by_round_contains(certificates, d);
        lemma_highest_round(certificates, d);
    }
}

proof fn lemma_joined_frontier(model: ExecutorModel, certificates: Seq<CertificateModel>)
    ensures
        commit_all(model, certificates).frontier == if highest_round(certificates)
            > model.frontier {
            highest_round(certificates)
        } else {
            model.frontier
        },
    decreases certificates.len(),
{
    if certificates.len() > 0 {
        lemma_joined_frontier(model, certificates.drop_last());
    }
}

/// A commit raises the frontier to its highest round.
pub proof fn lemma_frontier(model: ExecutorModel, commit: CommitModel)
    ensures
        registered(model, commit).frontier == if highest_round(commit.certificates)
            > model.frontier {
            highest_round(commit.certificates)
        } else {
            model.frontier
        },
{
    lemma_joined_frontier(booked(model, commit), by_round(commit.certificates));
    lemma_highest_by_round(commit.certificates);
}

/// From any place on, there is a first commit whose horizon is not reached, or the end.
proof fn lemma_reached_from(
    history: Seq<CommitModel>,
    window: Round,
    frontier: Round,
    from: int,
) -> (count: int)
    requires
        0 <= from <= history.len(),
    ensures
        from <= count <= history.len(),
        forall|i: int| from <= i < count ==> frontier >= horizon(#[trigger] history[i], window),
        count < history.len() ==> frontier < horizon(history[count], window),
    decreases history.len() - from,
{
    if from < history.len() && frontier >= horizon(history[from], window) {
        lemma_reached_from(history, window, frontier, from + 1)
    } else {
        from
    }
}

/// A slice that waits with all of its certificates still does once a commit is registered, and so
/// does the slice of the commit.
proof fn lemma_registered_holds(
    model: ExecutorModel,
    commit: CommitModel,
    history: Seq<CommitModel>,
    sent: Seq<ReleaseModel>,
)
    requires
        model.valid(),
        model.accepts(commit),
        commit.certificates.len() > 0,
        accounts(model, history, sent),
    ensures
        forall|i: int|
            sent.len() <= i <= history.len() ==> holds(
                registered(model, commit),
                #[trigger] history.push(commit)[i],
            ),
{
    let start = registered(model, commit);
    let longer = history.push(commit);
    lemma_registered_valid(model, commit);
    assert forall|i: int| sent.len() <= i <= history.len() implies holds(
        start,
        #[trigger] longer[i],
    ) by {
        if i < history.len() {
            assert(holds(model, history[i]));
            let id = history[i].batch_index;
            assert(id != commit.batch_index);
            assert(start.slices[id] == model.slices[id]);
            assert(start.pending(id) == model.pending(id));
        } else {
            assert(start.pending(commit.batch_index) == commit.members());
        }
    }
}

/// A slice that waits with all of its certificates still does once slices are sealed. It is sealed
/// just if its horizon is reached.
proof fn lemma_sealed_holds(model: ExecutorModel, commit: CommitModel, other: CommitModel)
    requires
        registered(model, commit).valid(),
        model.sealed_by(commit).valid(),
        forall|id: u64| #[trigger]
            registered(model, commit).is_ready(id) ==> registered(model, commit).snapshot().stands(
                registered(model, commit).slices[id].members,
            ),
        holds(registered(model, commit), other),
    ensures
        holds(model.sealed_by(commit), other),
        model.sealed_by(commit).slices[other.batch_index].sealed is Some <==> registered(
            model,
            commit,
        ).frontier >= horizon(other, registered(model, commit).window),
{
    let start = registered(model, commit);
    let sealed = model.sealed_by(commit);
    let id = other.batch_index;
    assert(sealed.slices.contains_key(id));
    assert(start.slice_valid(id));
    assert(sealed.slice_valid(id));
    if start.is_ready(id) {
        assert(start.ready().contains(id));
        assert(sealed.slices[id] == start.sealed_slice(id, commit.batch_index));
        let some = start.slices[id].members[0];
        law_exactly_once(start, id, id, commit.batch_index, some);
    } else {
        assert(!start.ready().contains(id));
        assert(sealed.slices[id] == start.slices[id]);
    }
}

/// What leaves of a sealed slice is a permutation of the certificates of its commit.
proof fn lemma_release_permutes(model: ExecutorModel, commit: CommitModel)
    requires
        holds(model, commit),
        model.slices[commit.batch_index].sealed is Some,
    ensures
        model.release(commit.batch_index).certificates.to_multiset()
            == commit.certificates.to_multiset(),
{
    let id = commit.batch_index;
    let f = |d: Digest| model.certificates[d];
    let order = model.slices[id].sealed->0.order;
    let members = commit.members();
    lemma_map_permutes(order, members, f);
    assert forall|k: int| 0 <= k < members.len() implies #[trigger] members.map_values(f)[k]
        == commit.certificates[k] by {
        assert(commit.certificates.contains(commit.certificates[k]));
    }
    assert(members.map_values(f) =~= commit.certificates);
    assert(model.release(id).certificates =~= order.map_values(f));
}

/// The slices that can be released are those of the commits from `from` up to the first whose slice
/// is not sealed.
proof fn lemma_free_slices(
    sealed: ExecutorModel,
    history: Seq<CommitModel>,
    from: int,
    count: int,
    i: int,
)
    requires
        numbers_increase(history),
        0 <= from <= i < history.len(),
        from <= count <= history.len(),
        forall|id: u64| #[trigger]
            sealed.slices.contains_key(id) ==> exists|k: int|
                from <= k < history.len() && (#[trigger] history[k]).batch_index == id,
        forall|k: int|
            from <= k < history.len() ==> sealed.slices.contains_key(
                (#[trigger] history[k]).batch_index,
            ),
        forall|k: int|
            from <= k < count ==> sealed.slices[(#[trigger] history[k]).batch_index].sealed is Some,
        count < history.len() ==> sealed.slices[history[count].batch_index].sealed is None,
    ensures
        sealed.is_free(history[i].batch_index) <==> i < count,
{
    let id = history[i].batch_index;
    if i < count {
        assert forall|j: u64| #[trigger]
            sealed.slices.contains_key(j) && j <= id implies sealed.slices[j].sealed is Some by {
            let k = choose|k: int|
                from <= k < history.len() && (#[trigger] history[k]).batch_index == j;
            if k > i {
                assert(history[i].batch_index < history[k].batch_index);
            }
        }
    } else {
        let low = history[count].batch_index;
        if count < i {
            assert(history[count].batch_index < history[i].batch_index);
        }
        assert(sealed.slices.contains_key(low) && low <= id);
    }
}

/// What leaves are the slices of the commits from `from` up to `count`, in order.
proof fn lemma_out_is_a_range(
    sealed: ExecutorModel,
    history: Seq<CommitModel>,
    from: int,
    count: int,
    out: Seq<ReleaseModel>,
)
    requires
        numbers_increase(history),
        0 <= from <= count <= history.len(),
        forall|id: u64| #[trigger]
            sealed.slices.contains_key(id) ==> exists|k: int|
                from <= k < history.len() && (#[trigger] history[k]).batch_index == id,
        forall|i: int|
            from <= i < history.len() ==> (sealed.is_free((#[trigger] history[i]).batch_index)
                <==> i < count),
        sealed.releases(out),
    ensures
        out.len() == count - from,
        forall|i: int|
            0 <= i < out.len() ==> (#[trigger] out[i]).slice_id == history[from + i].batch_index,
{
    let a = out.map_values(|r: ReleaseModel| r.slice_id);
    let b = history.subrange(from, count).map_values(|c: CommitModel| c.batch_index);
    assert forall|id: u64| a.to_set().contains(id) <==> #[trigger] b.to_set().contains(id) by {
        lemma_release_ids(sealed, out, id);
        if sealed.is_free(id) {
            let k = choose|k: int|
                from <= k < history.len() && (#[trigger] history[k]).batch_index == id;
            assert(k < count);
            assert(b[k - from] == id);
        }
        if b.contains(id) {
            let k = b.index_of(id);
            assert(b[k] == id);
            assert(history[from + k].batch_index == id);
        }
    }
    assert(a.to_set() =~= b.to_set());
    assert(increasing(a));
    assert(increasing(b));
    lemma_increasing_unique(a, b);
    assert(a.len() == out.len());
    assert forall|i: int| 0 <= i < out.len() implies (#[trigger] out[i]).slice_id == history[from
        + i].batch_index by {
        assert(a[i] == b[i]);
    }
}

/// A further commit brings new vertices.
proof fn lemma_vertices_push(
    model: ExecutorModel,
    commit: CommitModel,
    history: Seq<CommitModel>,
    sent: Seq<ReleaseModel>,
)
    requires
        model.accepts(commit),
        accounts(model, history, sent),
    ensures
        vertices(history.push(commit)) == vertices(history) + commit.members(),
        vertices(history.push(commit)).no_duplicates(),
        forall|d: Digest| #[trigger]
            vertices(history.push(commit)).contains(d) ==> registered(
                model,
                commit,
            ).owners.contains_key(d),
{
    let f = |commit: CommitModel| commit.members();
    let before = vertices(history);
    let members = commit.members();
    assert(history.push(commit).map_values(f) =~= history.map_values(f).push(members));
    lemma_joined_push(history.map_values(f), members);
    let after = vertices(history.push(commit));
    assert(after == before + members);
    assert forall|i: int, j: int| 0 <= i < after.len() && 0 <= j < after.len() && i != j implies after[i]
        != after[j] by {
        if i < before.len() && j >= before.len() {
            assert(before.contains(before[i]));
            assert(!model.owners.contains_key(members[j - before.len()]));
        } else if j < before.len() && i >= before.len() {
            assert(before.contains(before[j]));
            assert(!model.owners.contains_key(members[i - before.len()]));
        }
    }
    lemma_owners_stay(model, commit);
    assert forall|d: Digest| #[trigger] after.contains(d) implies registered(
        model,
        commit,
    ).owners.contains_key(d) by {
        let k = after.index_of(d);
        assert(after[k] == d);
        if k < before.len() {
            assert(before[k] == d);
            assert(before.contains(d));
        } else {
            assert(members[k - before.len()] == d);
            assert(members.contains(d));
        }
    }
}

/// A slice that stays keeps its certificates when others are dropped.
proof fn lemma_next_holds(model: ExecutorModel, commit: CommitModel, other: CommitModel)
    requires
        commit.certificates.len() > 0,
        model.next(commit).valid(),
        holds(model.sealed_by(commit), other),
        !model.sealed_by(commit).is_free(other.batch_index),
    ensures
        holds(model.next(commit), other),
{
    let sealed = model.sealed_by(commit);
    let after = model.next(commit);
    let id = other.batch_index;
    assert(after.slices.contains_key(id) && after.slices[id] == sealed.slices[id]);
    assert(after.pending(id) == sealed.pending(id));
    assert(after.slice_valid(id));
    lemma_members(other);
    assert forall|c: CertificateModel| #[trigger] other.certificates.contains(
        c,
    ) implies after.certificates.contains_key(c.digest) && after.certificates[c.digest] == c by {
        let d = c.digest;
        assert(other.members().contains(d));
        vstd::seq_lib::to_multiset_contains(other.members(), d);
        vstd::seq_lib::to_multiset_contains(after.pending(id), d);
        assert(after.pending(id).contains(d));
    }
}

/// A commit leaves the window alone, and what follows its registration leaves the frontier and the
/// owners alone.
proof fn lemma_next_frame(model: ExecutorModel, commit: CommitModel)
    requires
        model.valid(),
        model.accepts(commit),
        commit.certificates.len() > 0,
    ensures
        model.next(commit).frontier == registered(model, commit).frontier,
        model.next(commit).owners == registered(model, commit).owners,
        model.next(commit).window == model.window,
        registered(model, commit).window == model.window,
{
    lemma_registered_valid(model, commit);
}

/// Where the sealed slices end that nothing holds back: up to there the horizons are reached, and
/// just these slices can be released.
proof fn lemma_sealed_accounts(
    model: ExecutorModel,
    commit: CommitModel,
    history: Seq<CommitModel>,
    sent: Seq<ReleaseModel>,
) -> (count: int)
    requires
        model.settled(),
        model.accepts(commit),
        commit.certificates.len() > 0,
        model.sealed_by(commit).valid(),
        forall|id: u64| #[trigger]
            registered(model, commit).is_ready(id) ==> registered(model, commit).snapshot().stands(
                registered(model, commit).slices[id].members,
            ),
        accounts(model, history, sent),
        numbers_increase(history.push(commit)),
    ensures
        sent.len() <= count,
        is_reached_prefix(
            history.push(commit),
            model.window,
            registered(model, commit).frontier,
            count,
        ),
        forall|id: u64| #[trigger]
            model.sealed_by(commit).slices.contains_key(id) ==> exists|k: int|
                sent.len() <= k < history.push(commit).len() && (#[trigger] history.push(
                    commit,
                )[k]).batch_index == id,
        forall|i: int|
            sent.len() <= i < history.push(commit).len() ==> holds(
                model.sealed_by(commit),
                #[trigger] history.push(commit)[i],
            ) && (model.sealed_by(commit).is_free(history.push(commit)[i].batch_index) <==> i
                < count),
{
    let start = registered(model, commit);
    let sealed = model.sealed_by(commit);
    let longer = history.push(commit);
    let from = sent.len() as int;
    lemma_registered_valid(model, commit);
    lemma_registered_holds(model, commit, history, sent);
    let count = lemma_reached_from(longer, start.window, start.frontier, from);
    assert forall|i: int| from <= i < longer.len() implies holds(sealed, #[trigger] longer[i])
        && (sealed.slices[longer[i].batch_index].sealed is Some <==> start.frontier >= horizon(
        longer[i],
        start.window,
    )) by {
        lemma_sealed_holds(model, commit, longer[i]);
    }
    assert forall|id: u64| #[trigger] sealed.slices.contains_key(id) implies exists|k: int|
        from <= k < longer.len() && (#[trigger] longer[k]).batch_index == id by {
        assert(start.slices.contains_key(id));
        if id == commit.batch_index {
            assert(longer[history.len() as int].batch_index == id);
        } else {
            assert(model.slices.contains_key(id));
            let k = choose|k: int|
                from <= k < history.len() && (#[trigger] history[k]).batch_index == id;
            assert(longer[k].batch_index == id);
        }
    }
    assert forall|i: int| from <= i < longer.len() implies (sealed.is_free(
        (#[trigger] longer[i]).batch_index,
    ) <==> i < count) by {
        lemma_free_slices(sealed, longer, from, count, i);
    }
    assert forall|i: int| 0 <= i < count implies start.frontier >= horizon(
        #[trigger] longer[i],
        start.window,
    ) by {
        if i < from {
            assert(longer[i] == history[i]);
        }
    }
    count
}

/// What leaves goes on from what has left.
proof fn lemma_delivered(
    sealed: ExecutorModel,
    longer: Seq<CommitModel>,
    sent: Seq<ReleaseModel>,
    out: Seq<ReleaseModel>,
    history: Seq<CommitModel>,
)
    requires
        delivered(history, sent),
        forall|i: int| 0 <= i < history.len() ==> #[trigger] longer[i] == history[i],
        sent.len() + out.len() <= longer.len(),
        sealed.releases(out),
        forall|i: int|
            0 <= i < out.len() ==> (#[trigger] out[i]).slice_id == longer[sent.len()
                + i].batch_index,
        forall|i: int| sent.len() <= i < longer.len() ==> holds(sealed, #[trigger] longer[i]),
    ensures
        delivered(longer, sent + out),
{
    let all = sent + out;
    let from = sent.len() as int;
    assert forall|i: int| 0 <= i < all.len() implies (#[trigger] all[i]).slice_id
        == longer[i].batch_index && all[i].certificates.to_multiset()
        == longer[i].certificates.to_multiset() by {
        if i < from {
            assert(all[i] == sent[i]);
            assert(longer[i] == history[i]);
        } else {
            let k = i - from;
            assert(all[i] == out[k]);
            assert(sealed.is_free(out[k].slice_id) && out[k] == sealed.release(out[k].slice_id));
            assert(out[k].slice_id == longer[from + k].batch_index);
            assert(holds(sealed, longer[i]));
            assert(sealed.slices.contains_key(longer[i].batch_index));
            lemma_release_permutes(sealed, longer[i]);
        }
    }
}

/// The slices that cannot be released wait.
proof fn lemma_next_accounts(
    model: ExecutorModel,
    commit: CommitModel,
    longer: Seq<CommitModel>,
    from: int,
    count: int,
)
    requires
        commit.certificates.len() > 0,
        model.next(commit).valid(),
        from <= count,
        forall|id: u64| #[trigger]
            model.sealed_by(commit).slices.contains_key(id) ==> exists|k: int|
                from <= k < longer.len() && (#[trigger] longer[k]).batch_index == id,
        forall|i: int|
            from <= i < longer.len() ==> holds(model.sealed_by(commit), #[trigger] longer[i]) && (
            model.sealed_by(commit).is_free(longer[i].batch_index) <==> i < count),
    ensures
        forall|id: u64| #[trigger]
            model.next(commit).slices.contains_key(id) ==> exists|i: int|
                count <= i < longer.len() && (#[trigger] longer[i]).batch_index == id,
        forall|i: int|
            count <= i < longer.len() ==> holds(model.next(commit), #[trigger] longer[i]),
{
    let sealed = model.sealed_by(commit);
    let after = model.next(commit);
    assert forall|id: u64| #[trigger] after.slices.contains_key(id) implies exists|i: int|
        count <= i < longer.len() && (#[trigger] longer[i]).batch_index == id by {
        assert(sealed.slices.contains_key(id) && !sealed.is_free(id));
        let k = choose|k: int|
            from <= k < longer.len() && (#[trigger] longer[k]).batch_index == id;
        assert(k >= count);
    }
    assert forall|i: int| count <= i < longer.len() implies holds(after, #[trigger] longer[i]) by {
        lemma_next_holds(model, commit, longer[i]);
    }
}

/// A new executor accounts for no commits, and nothing has left.
pub proof fn law_new_executor_accounts_for_nothing(
    executor: MrvExecutor,
    committee_size: usize,
    window: Round,
)
    requires
        executor.is_new(committee_size, window),
    ensures
        accounts(executor@, Seq::empty(), Seq::empty()),
{
    let none = Seq::<CommitModel>::empty();
    assert(none.map_values(|commit: CommitModel| commit.members()) =~= Seq::empty());
    assert(vertices(none) =~= Seq::empty());
}

/// A commit keeps the accounts: the slices of the longest prefix whose horizons the highest round
/// seen has reached have left, each as one permutation of its certificates and one after the other,
/// and the others wait.
pub proof fn law_commit_keeps_accounts(
    model: ExecutorModel,
    commit: CommitModel,
    history: Seq<CommitModel>,
    sent: Seq<ReleaseModel>,
    out: Seq<ReleaseModel>,
)
    requires
        model.settled(),
        model.accepts(commit),
        commit.certificates.len() > 0,
        model.hands_out(commit, out),
        accounts(model, history, sent),
        numbers_increase(history.push(commit)),
    ensures
        model.next(commit).settled(),
        accounts(model.next(commit), history.push(commit), sent + out),
{
    let start = registered(model, commit);
    let sealed = model.sealed_by(commit);
    let after = model.next(commit);
    let longer = history.push(commit);
    let all = sent + out;
    lemma_release_valid(sealed);
    lemma_next_settled(model, commit);
    lemma_frontier(model, commit);
    lemma_vertices_push(model, commit, history, sent);
    assert(longer.drop_last() =~= history);
    assert(start.frontier == highest_of_all(longer));
    lemma_next_frame(model, commit);
    let count = lemma_sealed_accounts(model, commit, history, sent);
    lemma_out_is_a_range(sealed, longer, sent.len() as int, count, out);
    assert(all.len() == count);
    lemma_delivered(sealed, longer, sent, out, history);
    lemma_next_accounts(model, commit, longer, sent.len() as int, count);
}

proof fn lemma_new_settled(executor: MrvExecutor, committee_size: usize, window: Round)
    requires
        executor.is_new(committee_size, window),
        window > 0,
    ensures
        executor@.settled(),
{
    assert(executor@.owners =~= Map::<Digest, u64>::empty());
}

/// A run keeps the accounts.
pub proof fn lemma_run(
    executor: MrvExecutor,
    committee_size: usize,
    window: Round,
    commits: Seq<CommitModel>,
    outs: Seq<Seq<ReleaseModel>>,
)
    requires
        executor.is_new(committee_size, window),
        window > 0,
        is_run(executor@, commits, outs),
        numbers_increase(slices_of(commits)),
    ensures
        after_commits(executor@, commits).settled(),
        after_commits(executor@, commits).window == window,
        accounts(after_commits(executor@, commits), slices_of(commits), joined(outs)),
    decreases commits.len(),
{
    if commits.len() == 0 {
        lemma_new_settled(executor, committee_size, window);
        law_new_executor_accounts_for_nothing(executor, committee_size, window);
        assert(slices_of(commits) =~= Seq::empty());
        assert(joined(outs) =~= Seq::empty());
    } else {
        let init = commits.drop_last();
        let last = commits.last();
        let model = after_commits(executor@, init);
        let history = slices_of(init);
        assert(numbers_increase(history)) by {
            assert forall|i: int, j: int| 0 <= i < j < history.len() implies (
            #[trigger] history[i]).batch_index < (#[trigger] history[j]).batch_index by {
                assert(slices_of(commits)[i] == history[i] && slices_of(commits)[j] == history[j]);
            }
        }
        lemma_run(executor, committee_size, window, init, outs.drop_last());
        let sent = joined(outs.drop_last());
        if last.certificates.len() == 0 {
            assert(joined(outs) =~= sent);
        } else {
            lemma_registered_valid(model, last);
            law_commit_keeps_accounts(model, last, history, sent, outs.last());
        }
    }
}

/// The vertices that have left are those of the first commits, in some order.
proof fn lemma_sent_vertices(history: Seq<CommitModel>, sent: Seq<ReleaseModel>)
    requires
        delivered(history, sent),
    ensures
        sent_vertices(sent).to_multiset() == vertices(
            history.take(sent.len() as int),
        ).to_multiset(),
    decreases sent.len(),
{
    let first = history.take(sent.len() as int);
    let of_commit = |commit: CommitModel| commit.members();
    let of_release = |release: ReleaseModel| digests(release.certificates);
    if sent.len() == 0 {
        assert(sent.map_values(of_release) =~= Seq::empty());
        assert(first.map_values(of_commit) =~= Seq::empty());
    } else {
        let init = sent.drop_last();
        let last = sent.last();
        let commit = first.last();
        assert(delivered(history, init)) by {
            assert forall|i: int| 0 <= i < init.len() implies (#[trigger] init[i]).slice_id
                == history[i].batch_index && init[i].certificates.to_multiset()
                == history[i].certificates.to_multiset() by {
                assert(init[i] == sent[i]);
            }
        }
        lemma_sent_vertices(history, init);
        assert(first.drop_last() =~= history.take(init.len() as int));
        assert(sent.map_values(of_release).drop_last() =~= init.map_values(of_release));
        assert(first.map_values(of_commit).drop_last() =~= first.drop_last().map_values(of_commit));
        assert(sent[sent.len() - 1] == last);
        assert(last.certificates.to_multiset() == commit.certificates.to_multiset());
        lemma_map_permutes(
            last.certificates,
            commit.certificates,
            |certificate: CertificateModel| certificate.digest,
        );
        assert(digests(commit.certificates) =~= commit.members());
        vstd::seq_lib::lemma_multiset_commutative(sent_vertices(init), digests(last.certificates));
        vstd::seq_lib::lemma_multiset_commutative(vertices(first.drop_last()), commit.members());
    }
}

proof fn lemma_vertices_take(history: Seq<CommitModel>, count: int)
    requires
        0 <= count <= history.len(),
        vertices(history).no_duplicates(),
    ensures
        vertices(history.take(count)).no_duplicates(),
    decreases history.len() - count,
{
    if count == history.len() {
        assert(history.take(count) =~= history);
    } else {
        let f = |commit: CommitModel| commit.members();
        let first = history.take(count);
        let longer = history.take(count + 1);
        lemma_vertices_take(history, count + 1);
        assert(longer.map_values(f).drop_last() =~= first.map_values(f));
        assert(vertices(longer) == vertices(first) + history[count].members());
        assert forall|i: int, j: int|
            0 <= i < vertices(first).len() && 0 <= j < vertices(first).len() && i
                != j implies vertices(first)[i] != vertices(first)[j] by {
            assert(vertices(longer)[i] == vertices(first)[i]);
            assert(vertices(longer)[j] == vertices(first)[j]);
        }
    }
}

/// Over any run of commits from a new executor, numbered in the order in which they come, what has
/// left is one permutation of the certificates of each of the first slices, one slice after the
/// other. It is the slices of the longest prefix whose horizons the highest round seen has reached.
/// No certificate leaves twice.
pub proof fn law_run(
    executor: MrvExecutor,
    committee_size: usize,
    window: Round,
    commits: Seq<CommitModel>,
    outs: Seq<Seq<ReleaseModel>>,
)
    requires
        executor.is_new(committee_size, window),
        window > 0,
        is_run(executor@, commits, outs),
        numbers_increase(slices_of(commits)),
    ensures
        ({
            let history = slices_of(commits);
            let sent = joined(outs);
            &&& delivered(history, sent)
            &&& is_reached_prefix(history, window, highest_of_all(history), sent.len() as int)
            &&& sent_vertices(sent).no_duplicates()
            &&& after_commits(executor@, commits).frontier == highest_of_all(history)
            &&& accounts(after_commits(executor@, commits), history, sent)
        }),
{
    let history = slices_of(commits);
    let sent = joined(outs);
    lemma_run(executor, committee_size, window, commits, outs);
    lemma_sent_vertices(history, sent);
    lemma_vertices_take(history, sent.len() as int);
    let first = vertices(history.take(sent.len() as int));
    first.lemma_multiset_has_no_duplicates();
    sent_vertices(sent).lemma_multiset_has_no_duplicates_conv();
}

/// Two new executors for the same committee and window that take the same commits release the same
/// slices with the same certificates in the same order, and end up the same.
pub proof fn law_runs_agree(
    one: MrvExecutor,
    other: MrvExecutor,
    committee_size: usize,
    window: Round,
    commits: Seq<CommitModel>,
    one_outs: Seq<Seq<ReleaseModel>>,
    other_outs: Seq<Seq<ReleaseModel>>,
)
    requires
        one.is_new(committee_size, window),
        other.is_new(committee_size, window),
        is_run(one@, commits, one_outs),
        is_run(other@, commits, other_outs),
    ensures
        one_outs == other_outs,
        after_commits(one@, commits) == after_commits(other@, commits),
    decreases commits.len(),
{
    if commits.len() == 0 {
        assert(one.export_prefix_digest.0 =~= other.export_prefix_digest.0);
        assert(one@ =~= other@);
    } else {
        let init = commits.drop_last();
        let last = commits.last();
        law_runs_agree(
            one,
            other,
            committee_size,
            window,
            init,
            one_outs.drop_last(),
            other_outs.drop_last(),
        );
        law_outcome_is_determined(
            after_commits(one@, init).sealed_by(last),
            Set::empty(),
            one_outs.last(),
            other_outs.last(),
            Seq::empty(),
            Seq::empty(),
        );
        assert(one_outs.last() =~= other_outs.last());
        assert(one_outs =~= one_outs.drop_last().push(one_outs.last()));
        assert(other_outs =~= other_outs.drop_last().push(other_outs.last()));
    }
}

} // verus!
