//! Registration, sealing and release of slices.

use vstd::prelude::*;
use vstd::string::*;

use crate::counting::{lemma_count_all, lemma_count_split};
use crate::determinism::{lemma_by_key_exists, lemma_outcome_agrees, lemma_outcome_unique};
use crate::fingerprint::{
    extend_prefix, fingerprint, fingerprint_digests, member_set_fingerprint, sort_digests,
};
use crate::invariants::{lemma_next_settled, lemma_owner_count, lemma_registered_valid};
use crate::lifecycle::{lemma_lowest_round, models, sort_by_round};
use crate::model::{
    booked, commit_all, highest_round, is_floor, new_slice, registered, with_owners,
    ExecutorModel, ReleaseModel,
};
use crate::ordered::{increasing, lemma_increasing_no_duplicates, Key, OrderedSet};
use crate::ordering::{by_key, Snapshot};
use crate::scc::lists;
use crate::tie_break::lemma_tie_sorted_distinct;
use crate::topology::lemma_take_next;
use crate::state::{MrvExecutor, SealedMetrics, SealedSlice, SliceState};
use crate::types::{
    Certificate, CertificateModel, CommitModel, CommittedSubDag, Digest, PublicKey, Round,
};
use crate::visibility::seen_at;

verus! {

/// Why a vertex of a slice could not be output any more.
#[derive(Clone, Copy, Debug, PartialEq, Eq, Structural)]
pub enum LifecycleReason {
    MissingQueuedOutputStore,
    MissingUnsealedStore,
    MissingUnsealedAufState,
}

/// A vertex of a slice that could not be output any more.
#[derive(Clone, Copy, Debug, PartialEq, Eq)]
pub struct LifecycleViolation {
    pub reason: LifecycleReason,
    pub slice_id: u64,
    pub member: Digest,
}

impl LifecycleReason {
    /// What is wrong, in words.
    pub open spec fn words(self) -> Seq<char> {
        match self {
            LifecycleReason::MissingQueuedOutputStore =>
                "MRV queued output member is missing from the committed store"@,
            LifecycleReason::MissingUnsealedStore =>
                "MRV unsealed member is missing from the committed store"@,
            LifecycleReason::MissingUnsealedAufState =>
                "MRV unsealed member is missing visibility state"@,
        }
    }

    /// The reason in one word.
    pub open spec fn word(self) -> Seq<char> {
        match self {
            LifecycleReason::MissingQueuedOutputStore => "missing_queued_output_store"@,
            LifecycleReason::MissingUnsealedStore => "missing_unsealed_store"@,
            LifecycleReason::MissingUnsealedAufState => "missing_unsealed_auf_state"@,
        }
    }
}

impl LifecycleViolation {
    /// What is wrong.
    pub fn message(&self) -> (text: &'static str)
        ensures
            text@ == self.reason.words(),
            text@ == (match self.reason {
                LifecycleReason::MissingQueuedOutputStore =>
                    "MRV queued output member is missing from the committed store"@,
                LifecycleReason::MissingUnsealedStore =>
                    "MRV unsealed member is missing from the committed store"@,
                LifecycleReason::MissingUnsealedAufState =>
                    "MRV unsealed member is missing visibility state"@,
            }),
    {
        match self.reason {
            LifecycleReason::MissingQueuedOutputStore =>
                "MRV queued output member is missing from the committed store",
            LifecycleReason::MissingUnsealedStore =>
                "MRV unsealed member is missing from the committed store",
            LifecycleReason::MissingUnsealedAufState =>
                "MRV unsealed member is missing visibility state",
        }
    }

    /// The reason in one word.
    pub fn reason_name(&self) -> (text: &'static str)
        ensures
            text@ == self.reason.word(),
            text@ == (match self.reason {
                LifecycleReason::MissingQueuedOutputStore => "missing_queued_output_store"@,
                LifecycleReason::MissingUnsealedStore => "missing_unsealed_store"@,
                LifecycleReason::MissingUnsealedAufState => "missing_unsealed_auf_state"@,
            }),
    {
        match self.reason {
            LifecycleReason::MissingQueuedOutputStore => "missing_queued_output_store",
            LifecycleReason::MissingUnsealedStore => "missing_unsealed_store",
            LifecycleReason::MissingUnsealedAufState => "missing_unsealed_auf_state",
        }
    }
}

impl ExecutorModel {
    /// The vertices of the slice that are still to be output.
    pub open spec fn pending(self, id: u64) -> Seq<Digest> {
        match self.slices[id].sealed {
            Some(sealed) => sealed.order,
            None => self.slices[id].members,
        }
    }

    /// What is missing of a vertex of the slice.
    pub open spec fn missing(self, id: u64, member: Digest) -> Option<LifecycleReason> {
        if self.slices[id].sealed is Some {
            if self.certificates.contains_key(member) {
                None
            } else {
                Some(LifecycleReason::MissingQueuedOutputStore)
            }
        } else if !self.certificates.contains_key(member) {
            Some(LifecycleReason::MissingUnsealedStore)
        } else if !self.evidence.contains_key(member) {
            Some(LifecycleReason::MissingUnsealedAufState)
        } else {
            None
        }
    }

    /// Whether nothing is missing of the first `count` vertices of the slice.
    pub open spec fn complete_up_to(self, id: u64, count: int) -> bool {
        forall|k: int|
            0 <= k < count ==> self.missing(id, #[trigger] self.pending(id)[k]) is None
    }

    /// Whether nothing is missing of any vertex that is still to be output.
    pub open spec fn complete(self) -> bool {
        forall|id: u64| #[trigger]
            self.slices.contains_key(id) ==> self.complete_up_to(id, self.pending(id).len() as int)
    }

    /// Whether this is the first vertex of which something is missing, by slice and then by its
    /// place in the slice.
    pub open spec fn first_violation(self, violation: LifecycleViolation) -> bool {
        let id = violation.slice_id;
        &&& self.slices.contains_key(id)
        &&& forall|j: u64| #[trigger]
            self.slices.contains_key(j) && j < id ==> self.complete_up_to(
                j,
                self.pending(j).len() as int,
            )
        &&& exists|k: int|
            0 <= k < self.pending(id).len() && self.complete_up_to(id, k)
                && #[trigger] self.pending(id)[k] == violation.member && self.missing(
                id,
                violation.member,
            ) == Some(violation.reason)
    }
}

impl MrvExecutor {
    /// Checks the vertices of one slice.
    fn check_slice(&self, id: u64, slice: &SliceState) -> (result: Result<(), LifecycleViolation>)
        requires
            self.slices@.contains_key(id),
            self.slices@[id] == *slice,
        ensures
            match result {
                Ok(()) => self@.complete_up_to(id, self@.pending(id).len() as int),
                Err(violation) => violation.slice_id == id && exists|k: int|
                    0 <= k < self@.pending(id).len() && self@.complete_up_to(id, k)
                        && #[trigger] self@.pending(id)[k] == violation.member && self@.missing(
                        id,
                        violation.member,
                    ) == Some(violation.reason),
            },
    {
        let ghost model = self@;
        assert(model.slices[id] == slice@);
        let (sealed, pending) = match &slice.sealed {
            Some(sealed) => (true, &sealed.order),
            None => (false, &slice.members),
        };
        assert(model.pending(id) == pending@);
        let count = pending.len();
        let mut k: usize = 0;
        while k < count
            invariant
                k <= count,
                count == pending@.len(),
                model == self@,
                model.slices[id] == slice@,
                sealed == (slice@.sealed is Some),
                model.pending(id) == pending@,
                model.complete_up_to(id, k as int),
            decreases count - k,
        {
            let member = pending[k];
            let stored = self.store.contains_key(&member);
            let active = self.auf_states.contains_key(&member);
            assert(stored == model.certificates.contains_key(member));
            assert(active == model.evidence.contains_key(member));
            assert(model.pending(id)[k as int] == member);
            if !stored {
                let reason = if sealed {
                    LifecycleReason::MissingQueuedOutputStore
                } else {
                    LifecycleReason::MissingUnsealedStore
                };
                return Err(LifecycleViolation { reason, slice_id: id, member });
            }
            if !sealed && !active {
                return Err(
                    LifecycleViolation {
                        reason: LifecycleReason::MissingUnsealedAufState,
                        slice_id: id,
                        member,
                    },
                );
            }
            k = k + 1;
        }
        Ok(())
    }

    /// Checks that every vertex that is still to be output has its certificate and, in an unsealed
    /// slice, its evidence. Reports the first that has not.
    pub fn assert_member_lifecycle(&self) -> (result: Result<(), LifecycleViolation>)
        ensures
            result is Ok <==> self@.complete(),
            match result {
                Ok(()) => true,
                Err(violation) => self@.first_violation(violation),
            },
    {
        let ghost model = self@;
        let ghost keys = self.slices.key_seq();
        let count = self.slices.len();
        let mut i: usize = 0;
        while i < count
            invariant
                i <= count,
                count == keys.len(),
                keys == self.slices.key_seq(),
                increasing(keys),
                self.slices@.dom() == keys.to_set(),
                model == self@,
                forall|j: int|
                    0 <= j < i ==> model.complete_up_to(
                        #[trigger] keys[j],
                        model.pending(keys[j]).len() as int,
                    ),
            decreases count - i,
        {
            let id: u64 = self.slices.key_at(i);
            let slice = self.slices.value_at(i);
            match self.check_slice(id, slice) {
                Ok(()) => {},
                Err(violation) => {
                    proof {
                        assert forall|j: u64| #[trigger]
                            model.slices.contains_key(j) && j < id implies model.complete_up_to(
                            j,
                            model.pending(j).len() as int,
                        ) by {
                            assert(self.slices@.dom().contains(j));
                            assert(keys.contains(j));
                            let at = keys.index_of(j);
                            assert(keys[at] == j);
                            if at >= i {
                                assert(keys[i as int].ord() <= keys[at].ord());
                            }
                        }
                        assert(!model.complete_up_to(id, model.pending(id).len() as int));
                        assert(model.slices.contains_key(id));
                    }
                    return Err(violation);
                },
            }
            i = i + 1;
        }
        proof {
            assert forall|id: u64| #[trigger] model.slices.contains_key(id) implies model.complete_up_to(
                id,
                model.pending(id).len() as int,
            ) by {
                assert(self.slices@.dom().contains(id));
                assert(keys.contains(id));
                let at = keys.index_of(id);
                assert(keys[at] == id);
            }
        }
        Ok(())
    }

    /// The vertices that are outputs awaiting release.
    fn queued_outputs(&self) -> (queued: OrderedSet<Digest>)
        ensures
            forall|d: Digest| #[trigger] queued@.contains(d) <==> self@.is_queued(d),
    {
        let ghost model = self@;
        let ghost keys = self.slices.key_seq();
        let mut queued: OrderedSet<Digest> = OrderedSet::new();
        let count = self.slices.len();
        let mut i: usize = 0;
        while i < count
            invariant
                i <= count,
                count == keys.len(),
                keys == self.slices.key_seq(),
                self.slices@.dom() == keys.to_set(),
                model == self@,
                forall|d: Digest| #[trigger] queued@.contains(d) ==> model.is_queued(d),
                forall|j: int, d: Digest|
                    0 <= j < i && model.slices[#[trigger] keys[j]].sealed is Some
                        && #[trigger] model.slices[keys[j]].sealed->0.order.contains(d)
                        ==> queued@.contains(d),
            decreases count - i,
        {
            let ghost id = keys[i as int];
            let slice = self.slices.value_at(i);
            assert(model.slices.contains_key(id) && model.slices[id] == slice@);
            match &slice.sealed {
                Some(sealed) => {
                    let size = sealed.order.len();
                    let mut k: usize = 0;
                    while k < size
                        invariant
                            k <= size,
                            size == sealed.order@.len(),
                            0 <= i < keys.len(),
                            id == keys[i as int],
                            model == self@,
                            model.slices.contains_key(id),
                            model.slices[id] == slice@,
                            slice.sealed == Some(*sealed),
                            forall|d: Digest| #[trigger] queued@.contains(d) ==> model.is_queued(d),
                            forall|j: int, d: Digest|
                                0 <= j < i && model.slices[#[trigger] keys[j]].sealed is Some
                                    && #[trigger] model.slices[keys[j]].sealed->0.order.contains(d)
                                    ==> queued@.contains(d),
                            forall|j: int|
                                0 <= j < k ==> queued@.contains(#[trigger] sealed.order@[j]),
                        decreases size - k,
                    {
                        let member = sealed.order[k];
                        let _ = queued.insert(member);
                        assert(sealed.order@.contains(member));
                        assert(model.slices[id].sealed->0.order.contains(member));
                        assert(model.is_queued(member));
                        k = k + 1;
                    }
                    proof {
                        assert forall|d: Digest| #[trigger]
                            model.slices[id].sealed->0.order.contains(d) implies queued@.contains(d) by {
                            let k = sealed.order@.index_of(d);
                            assert(sealed.order@[k] == d);
                        }
                    }
                },
                None => {},
            }
            i = i + 1;
        }
        proof {
            assert forall|d: Digest| model.is_queued(d) implies #[trigger] queued@.contains(d) by {
                let id = choose|id: u64| #[trigger]
                    model.slices.contains_key(id) && (model.slices[id].sealed matches Some(sealed)
                        && sealed.order.contains(d));
                assert(self.slices@.dom().contains(id));
                assert(keys.contains(id));
                let at = keys.index_of(id);
                assert(keys[at] == id);
                assert(model.slices[keys[at]].sealed->0.order.contains(d));
            }
        }
        queued
    }

    /// Drops the certificates that are needed neither for an output nor for ancestry queries.
    pub fn garbage_collect_store(&mut self)
        ensures
            final(self)@ == old(self)@.collected(),
    {
        let ghost model = self@;
        let ghost stored = self.store.key_seq();
        let mut keep = self.queued_outputs();
        match self.active_floor_round {
            Some(floor) => {
                let count = self.store.len();
                let mut i: usize = 0;
                while i < count
                    invariant
                        i <= count,
                        count == stored.len(),
                        stored == self.store.key_seq(),
                        self.store@.dom() == stored.to_set(),
                        model == self@,
                        model.floor == Some(floor),
                        forall|d: Digest|
                            self.store@.contains_key(d) && #[trigger] keep@.contains(d)
                                ==> model.is_needed(d),
                        forall|d: Digest| model.is_queued(d) ==> #[trigger] keep@.contains(d),
                        forall|j: int|
                            0 <= j < i && model.certificates[#[trigger] stored[j]].round >= floor
                                ==> keep@.contains(stored[j]),
                    decreases count - i,
                {
                    let digest = self.store.key_at(i);
                    let round: Round = self.store.value_at(i).round;
                    assert(model.certificates[digest].round == round);
                    if round >= floor {
                        let _ = keep.insert(digest);
                    }
                    i = i + 1;
                }
                proof {
                    assert forall|d: Digest| self.store@.dom().contains(d) && model.is_needed(d) implies #[trigger] keep@.contains(
                    d) by {
                        assert(stored.contains(d));
                        let at = stored.index_of(d);
                        assert(stored[at] == d);
                    }
                }
            },
            None => {},
        }
        self.store.retain(&keep);
        assert(self.certificates() =~= model.collected().certificates);
    }
}

/// What is reported of a slice when it is sealed.
#[derive(Clone, Copy, Debug, PartialEq, Eq)]
pub struct SliceReport {
    pub slice_id: u64,
    pub mrv_window: Round,
    pub slice_size: usize,
    pub slice_max_round: Round,
    pub seal_horizon: Round,
    /// How many rounds after its last one the slice was sealed.
    pub seal_wait_rounds: Round,
    pub sealed: SealedMetrics,
}

impl ExecutorModel {
    /// What is reported of a sealed slice.
    pub open spec fn report(self, id: u64) -> SliceReport {
        let slice = self.slices[id];
        let sealed = slice.sealed->0.metrics;
        SliceReport {
            slice_id: id,
            mrv_window: self.window,
            slice_size: (sealed.ordering.eligible_vertex_count
                + sealed.ordering.ineligible_vertex_count) as usize,
            slice_max_round: slice.max_round,
            seal_horizon: slice.seal_horizon,
            seal_wait_rounds: if sealed.snapshot_round >= slice.max_round {
                (sealed.snapshot_round - slice.max_round) as Round
            } else {
                0
            },
            sealed,
        }
    }

    /// Whether exactly the given slices are reported, in the order of their numbers.
    pub open spec fn reports(self, ids: Set<u64>, reports: Seq<SliceReport>) -> bool {
        &&& forall|i: int, j: int|
            0 <= i < j < reports.len() ==> (#[trigger] reports[i]).slice_id < (
            #[trigger] reports[j]).slice_id
        &&& forall|i: int|
            0 <= i < reports.len() ==> ids.contains((#[trigger] reports[i]).slice_id) && reports[i]
                == self.report(reports[i].slice_id)
        &&& forall|id: u64| #[trigger]
            ids.contains(id) ==> exists|i: int|
                0 <= i < reports.len() && (#[trigger] reports[i]).slice_id == id
    }
}

/// Sealing no slice changes nothing.
proof fn lemma_seal_none(model: ExecutorModel, trigger: u64)
    requires
        model.valid(),
    ensures
        model.with_sealed(Set::<u64>::empty(), trigger) == model,
{
    let none = Set::<u64>::empty();
    assert(model.members_of(none) =~= Set::<Digest>::empty());
    assert(model.evidence.remove_keys(model.members_of(none)) =~= model.evidence);
    lemma_lowest_round(model.evidence, model.floor);
    assert(model.with_sealed(none, trigger).slices =~= model.slices);
}

/// Vertices of different slices are different.
pub proof fn lemma_members_disjoint(model: ExecutorModel, one: u64, other: u64, d: Digest)
    requires
        model.valid(),
        model.slices.contains_key(one),
        model.slices.contains_key(other),
        model.slices[one].members.contains(d),
        model.slices[other].members.contains(d),
    ensures
        one == other,
{
    assert(model.slice_valid(one) && model.slice_valid(other));
}

/// Slices can be sealed one after the other: what was sealed before does not matter.
proof fn lemma_seal_more(model: ExecutorModel, done: Set<u64>, id: u64, trigger: u64)
    requires
        model.valid(),
        !done.contains(id),
        forall|j: u64| #[trigger] done.contains(j) ==> model.slices.contains_key(j),
        model.slices.contains_key(id),
        model.with_sealed(done, trigger).snapshot().stands(model.slices[id].members),
    ensures
        model.with_sealed(done, trigger).with_sealed(set![id], trigger) == model.with_sealed(
            done.insert(id),
            trigger,
        ),
        model.snapshot().stands(model.slices[id].members),
{
    let middle = model.with_sealed(done, trigger);
    let after = middle.with_sealed(set![id], trigger);
    let direct = model.with_sealed(done.insert(id), trigger);
    let members = model.slices[id].members;
    assert(middle.slices[id] == model.slices[id]);
    assert(middle.snapshot().agrees(model.snapshot(), members.to_set())) by {
        assert forall|d: Digest| #[trigger] members.to_set().contains(d) implies !model.members_of(
            done,
        ).contains(d) by {
            if model.members_of(done).contains(d) {
                let j = choose|j: u64| #[trigger]
                    done.contains(j) && model.slices.contains_key(j)
                        && model.slices[j].members.contains(d);
                lemma_members_disjoint(model, id, j, d);
            }
        }
    }
    lemma_outcome_agrees(middle.snapshot(), model.snapshot(), members);
    assert(middle.sealed_slice(id, trigger) == model.sealed_slice(id, trigger));
    assert(after.slices =~= direct.slices);
    assert forall|d: Digest| model.members_of(done.insert(id)).contains(d) <==> model.members_of(
        done,
    ).contains(d) || middle.members_of(set![id]).contains(d) by {
        if model.members_of(done).contains(d) {
            let j = choose|j: u64| #[trigger]
                done.contains(j) && model.slices.contains_key(j)
                    && model.slices[j].members.contains(d);
            assert(done.insert(id).contains(j));
        }
        if middle.members_of(set![id]).contains(d) {
            assert(done.insert(id).contains(id));
            assert(model.slices[id].members.contains(d));
        }
        if model.members_of(done.insert(id)).contains(d) {
            let j = choose|j: u64| #[trigger]
                done.insert(id).contains(j) && model.slices.contains_key(j)
                    && model.slices[j].members.contains(d);
            if j == id {
                assert(set![id].contains(id));
                assert(middle.slices.contains_key(id));
            } else {
                assert(done.contains(j));
            }
        }
    }
    assert(after.evidence =~= direct.evidence);
}

/// The order of a slice holds every vertex of it once.
proof fn lemma_order_holds_all(s: Snapshot, base: Seq<Digest>)
    requires
        s.stands(base),
    ensures
        s.order(base.to_set()).no_duplicates(),
        s.order(base.to_set()).to_set() == base.to_set(),
{
    reveal(Snapshot::stands);
}

/// Sealing a slice whose horizon is reached keeps the executor valid.
proof fn lemma_seal_valid(model: ExecutorModel, id: u64, trigger: u64)
    requires
        model.valid(),
        model.is_ready(id),
        model.snapshot().stands(model.slices[id].members),
        is_floor(
            model.with_sealed(set![id], trigger).evidence,
            model.with_sealed(set![id], trigger).floor,
        ),
    ensures
        model.with_sealed(set![id], trigger).valid(),
{
    let after = model.with_sealed(set![id], trigger);
    let members = model.slices[id].members;
    let order = model.snapshot().order(members.to_set());
    lemma_order_holds_all(model.snapshot(), members);
    assert(model.slice_valid(id));
    assert forall|d: Digest, round: Round| (#[trigger] seen_at(
        after.evidence,
        d,
        round,
    )).finite() by {
        assert(seen_at(model.evidence, d, round).finite());
    }
    assert(set![id].contains(id));
    assert forall|d: Digest| #[trigger] after.evidence.contains_key(d) implies after.is_active(d)
        && after.certificates.contains_key(d) && after.evidence[d].round
        == after.certificates[d].round by {
        assert(model.evidence.contains_key(d));
        let j = choose|j: u64| #[trigger]
            model.slices.contains_key(j) && model.slices[j].sealed is None
                && model.slices[j].members.contains(d);
        assert(j != id);
        assert(after.slices.contains_key(j));
        assert(after.slices[j] == model.slices[j]);
    }
    assert forall|j: u64| #[trigger] after.slices.contains_key(j) implies after.slice_valid(j) by {
        assert(model.slices.contains_key(j));
        assert(model.slice_valid(j));
        if j == id {
            let sealed = after.slices[id].sealed->0;
            assert forall|d: Digest| #[trigger] sealed.order.contains(d) implies after.certificates.contains_key(
                d,
            ) && after.owners.contains_key(d) && after.owners[d] == id by {
                assert(order.to_set().contains(d));
                assert(members.to_set().contains(d));
                assert(members.contains(d));
            }
        } else {
            assert(after.slices[j] == model.slices[j]);
            if model.slices[j].sealed is None {
                assert forall|d: Digest| #[trigger] model.slices[j].members.contains(d) implies after.evidence.contains_key(
                d) by {
                    if model.members_of(set![id]).contains(d) {
                        lemma_members_disjoint(model, id, j, d);
                    }
                }
            }
        }
    }
}

impl MrvExecutor {
    /// What is reported of a sealed slice.
    pub fn slice_report(&self, slice_id: u64, slice: &SliceState, sealed: &SealedMetrics) -> (report:
        SliceReport)
        requires
            sealed.ordering.eligible_vertex_count + sealed.ordering.ineligible_vertex_count
                <= usize::MAX,
        ensures
            report == (SliceReport {
                slice_id,
                mrv_window: self.mrv_window,
                slice_size: (sealed.ordering.eligible_vertex_count
                    + sealed.ordering.ineligible_vertex_count) as usize,
                slice_max_round: slice.max_round,
                seal_horizon: slice.seal_horizon,
                seal_wait_rounds: if sealed.snapshot_round >= slice.max_round {
                    (sealed.snapshot_round - slice.max_round) as Round
                } else {
                    0
                },
                sealed: *sealed,
            }),
    {
        SliceReport {
            slice_id,
            mrv_window: self.mrv_window,
            slice_size: sealed.ordering.eligible_vertex_count
                + sealed.ordering.ineligible_vertex_count,
            slice_max_round: slice.max_round,
            seal_horizon: slice.seal_horizon,
            seal_wait_rounds: sealed.snapshot_round.saturating_sub(slice.max_round),
            sealed: *sealed,
        }
    }

    /// Seals a slice at the present snapshot.
    fn seal_slice(&mut self, id: u64, trigger_slice_id: u64) -> (report: SliceReport)
        requires
            old(self)@.valid(),
            old(self)@.is_ready(id),
        ensures
            final(self)@ == old(self)@.with_sealed(set![id], trigger_slice_id),
            final(self)@.valid(),
            old(self)@.snapshot().stands(old(self)@.slices[id].members),
            report == final(self)@.report(id),
    {
        let ghost before = self@;
        let ghost slice_before = before.slices[id];
        assert(before.slice_valid(id));
        assert(self.slices@.contains_key(id));
        let members = self.slices.get(&id).expect("ready slice must exist").members.clone();
        assert(members@ =~= slice_before.members);
        proof {
            assert forall|d: Digest| #[trigger] members@.to_set().contains(d) implies self.store@.dom().contains(
            d) by {
                assert(slice_before.members.contains(d));
                assert(before.certificates.contains_key(d));
            }
        }
        let ordering = self.order_slice(&members);
        proof {
            reveal(Snapshot::stands);
            assert(self.snapshot() == before.snapshot());
            lemma_outcome_unique(
                before.snapshot(),
                members@,
                lists(ordering.ordered_sccs@),
                ordering.order@,
                ordering.metrics,
            );
            lemma_vertex_counts(before.snapshot(), members@);
        }
        let execution_order_digest = fingerprint_digests(
            "MRV-EXECUTION-ORDER-v1".as_bytes(),
            &ordering.order,
        );
        let metrics = SealedMetrics {
            ordering: ordering.metrics,
            snapshot_round: self.frontier_round,
            trigger_slice_id,
            trigger_export_prefix_digest: self.export_prefix_digest,
            execution_order_digest,
        };
        let sealed = SealedSlice {
            ordered_sccs: ordering.ordered_sccs,
            order: ordering.order,
            metrics,
        };
        assert(sealed@ == before.sealed_slice(id, trigger_slice_id).sealed->0);
        let slice = self.slices.get_mut(&id).expect("ready slice must exist");
        slice.sealed = Some(sealed);
        slice.members = Vec::new();
        let ghost marked = self@;
        proof {
            assert(self.slices@[id]@ =~= before.sealed_slice(id, trigger_slice_id));
            assert(marked.slices =~= before.slices.insert(
                id,
                before.sealed_slice(id, trigger_slice_id),
            ));
            assert(marked.evidence == before.evidence);
        }
        self.release_evidence(&members);
        proof {
            assert(set![id].contains(id));
            assert(before.members_of(set![id]) =~= members@.to_set());
            assert(self@.slices =~= before.with_sealed(set![id], trigger_slice_id).slices);
            assert(self@ == before.with_sealed(set![id], trigger_slice_id));
            lemma_seal_valid(before, id, trigger_slice_id);
        }
        assert(self@.slices.contains_key(id));
        let slice = self.slices.get(&id).expect("sealed slice must exist");
        let report = self.slice_report(id, slice, &metrics);
        assert(self@.slices[id] == before.sealed_slice(id, trigger_slice_id));
        report
    }
}

impl MrvExecutor {
    /// The slices that can be sealed, in the order of their numbers.
    fn ready_slices(&self) -> (ready: Vec<u64>)
        ensures
            ready@.to_set() == self@.ready(),
            increasing(ready@),
    {
        let ghost model = self@;
        let ghost keys = self.slices.key_seq();
        let mut ready: Vec<u64> = Vec::new();
        let count = self.slices.len();
        let mut i: usize = 0;
        while i < count
            invariant
                i <= count,
                count == keys.len(),
                keys == self.slices.key_seq(),
                self.slices@.dom() == keys.to_set(),
                increasing(keys),
                increasing(ready@),
                model == self@,
                forall|k: int| 0 <= k < ready@.len() ==> model.is_ready(#[trigger] ready@[k]),
                forall|k: int, j: int|
                    0 <= k < ready@.len() && i <= j < count ==> #[trigger] ready@[k] < #[trigger] keys[j],
                forall|j: int|
                    0 <= j < i && model.is_ready(#[trigger] keys[j]) ==> ready@.contains(keys[j]),
            decreases count - i,
        {
            let id: u64 = self.slices.key_at(i);
            let slice = self.slices.value_at(i);
            let ghost shorter = ready@;
            assert(model.slices[id] == slice@);
            if slice.sealed.is_none() && self.frontier_round >= slice.seal_horizon {
                ready.push(id);
            }
            proof {
                assert forall|j: int| 0 <= j < i + 1 && model.is_ready(#[trigger] keys[j]) implies ready@.contains(
                keys[j]) by {
                    if j < i {
                        let k = shorter.index_of(keys[j]);
                        assert(ready@[k] == keys[j]);
                    } else {
                        assert(ready@[shorter.len() as int] == id);
                    }
                }
                assert forall|k: int, j: int|
                    0 <= k < ready@.len() && i + 1 <= j < count implies #[trigger] ready@[k]
                    < #[trigger] keys[j] by {
                    assert(keys[i as int].ord() < keys[j].ord());
                }
            }
            i = i + 1;
        }
        proof {
            assert forall|id: u64| ready@.to_set().contains(id) <==> self@.ready().contains(id) by {
                if model.is_ready(id) {
                    assert(self.slices@.dom().contains(id));
                    assert(keys.contains(id));
                    let at = keys.index_of(id);
                    assert(keys[at] == id);
                }
                if ready@.contains(id) {
                    let k = ready@.index_of(id);
                    assert(ready@[k] == id);
                }
            }
            assert(ready@.to_set() =~= self@.ready());
        }
        ready
    }

    /// Seals every slice whose horizon the frontier has reached, at the present snapshot. Reports
    /// them in the order of their numbers.
    pub fn seal_ready_slices(&mut self, trigger_slice_id: u64) -> (reports: Vec<SliceReport>)
        requires
            old(self)@.valid(),
        ensures
            final(self)@ == old(self)@.with_sealed(old(self)@.ready(), trigger_slice_id),
            final(self)@.valid(),
            final(self)@.reports(old(self)@.ready(), reports@),
            reports@.len() == 0 <==> old(self)@.ready() == Set::<u64>::empty(),
            forall|id: u64| #[trigger]
                old(self)@.is_ready(id) ==> old(self)@.snapshot().stands(
                    old(self)@.slices[id].members,
                ),
    {
        let ghost before = self@;
        let ready = self.ready_slices();
        let mut reports: Vec<SliceReport> = Vec::new();
        let count = ready.len();
        let mut i: usize = 0;
        proof {
            lemma_increasing_no_duplicates(ready@);
            lemma_seal_none(before, trigger_slice_id);
            assert(ready@.take(0).to_set() =~= Set::<u64>::empty());
        }
        while i < count
            invariant
                i <= count,
                count == ready@.len(),
                increasing(ready@),
                ready@.no_duplicates(),
                ready@.to_set() == before.ready(),
                before.valid(),
                self@.valid(),
                self@ == before.with_sealed(ready@.take(i as int).to_set(), trigger_slice_id),
                reports@.len() == i,
                forall|k: int|
                    0 <= k < i ==> (#[trigger] reports@[k]).slice_id == ready@[k] && reports@[k]
                        == sealed_report(before, ready@[k], trigger_slice_id),
                forall|k: int|
                    0 <= k < i ==> before.snapshot().stands(
                        before.slices[#[trigger] ready@[k]].members,
                    ),
            decreases count - i,
        {
            let id: u64 = ready[i];
            let ghost done = ready@.take(i as int).to_set();
            proof {
                lemma_next_ready(before, ready@, i as int, trigger_slice_id);
            }
            let report = self.seal_slice(id, trigger_slice_id);
            proof {
                lemma_seal_more(before, done, id, trigger_slice_id);
                lemma_sealed_report(before, ready@.take(i + 1).to_set(), id, trigger_slice_id);
            }
            reports.push(report);
            i = i + 1;
        }
        proof {
            assert(ready@.take(count as int) =~= ready@);
            lemma_sealed_all(before, ready@, reports@, trigger_slice_id);
        }
        reports
    }
}

/// While the slices before it in the list are sealed, the next one stays as it is.
proof fn lemma_next_ready(before: ExecutorModel, ready: Seq<u64>, i: int, trigger: u64)
    requires
        ready.no_duplicates(),
        ready.to_set() == before.ready(),
        0 <= i < ready.len(),
    ensures
        before.slices.contains_key(ready[i]),
        !ready.take(i).to_set().contains(ready[i]),
        forall|j: u64| #[trigger]
            ready.take(i).to_set().contains(j) ==> before.slices.contains_key(j),
        ready.take(i + 1).to_set() == ready.take(i).to_set().insert(ready[i]),
        before.with_sealed(ready.take(i).to_set(), trigger).is_ready(ready[i]),
        before.with_sealed(ready.take(i).to_set(), trigger).slices[ready[i]]
            == before.slices[ready[i]],
{
    let done = ready.take(i).to_set();
    let id = ready[i];
    lemma_take_next(ready, i);
    assert(ready.take(i + 1).to_set() =~= done.insert(id));
    assert(ready.to_set().contains(id));
    assert(before.is_ready(id));
    assert forall|j: u64| #[trigger] done.contains(j) implies before.slices.contains_key(j) && j
        != id by {
        assert(ready.take(i).contains(j));
        let k = ready.take(i).index_of(j);
        assert(ready[k] == j);
        assert(ready.to_set().contains(j));
        assert(before.is_ready(j));
    }
    assert(!done.contains(id));
}

/// The report on a sealed slice does not depend on what else is sealed.
proof fn lemma_sealed_report(before: ExecutorModel, done: Set<u64>, id: u64, trigger: u64)
    requires
        before.slices.contains_key(id),
        done.contains(id),
    ensures
        before.with_sealed(done, trigger).report(id) == sealed_report(before, id, trigger),
        sealed_report(before, id, trigger).slice_id == id,
{
    assert(set![id].contains(id));
    assert(before.with_sealed(done, trigger).slices[id] == before.sealed_slice(id, trigger));
    assert(before.with_sealed(set![id], trigger).slices[id] == before.sealed_slice(id, trigger));
}

/// Once all slices that can be sealed are, the reports on them are complete.
proof fn lemma_sealed_all(
    before: ExecutorModel,
    ready: Seq<u64>,
    reports: Seq<SliceReport>,
    trigger: u64,
)
    requires
        increasing(ready),
        ready.to_set() == before.ready(),
        reports.len() == ready.len(),
        forall|k: int|
            0 <= k < ready.len() ==> (#[trigger] reports[k]).slice_id == ready[k] && reports[k]
                == sealed_report(before, ready[k], trigger),
        forall|k: int|
            0 <= k < ready.len() ==> before.snapshot().stands(
                before.slices[#[trigger] ready[k]].members,
            ),
    ensures
        before.with_sealed(before.ready(), trigger).reports(before.ready(), reports),
        reports.len() == 0 <==> before.ready() == Set::<u64>::empty(),
        forall|id: u64| #[trigger]
            before.is_ready(id) ==> before.snapshot().stands(before.slices[id].members),
{
    let after = before.with_sealed(before.ready(), trigger);
    assert forall|id: u64| #[trigger] before.ready().contains(id) implies exists|k: int|
        0 <= k < reports.len() && (#[trigger] reports[k]).slice_id == id by {
        assert(ready.contains(id));
        let k = ready.index_of(id);
        assert(ready[k] == id);
        assert(reports[k].slice_id == id);
    }
    assert forall|id: u64| #[trigger] before.is_ready(id) implies before.snapshot().stands(
        before.slices[id].members,
    ) by {
        assert(before.ready().contains(id));
        assert(ready.contains(id));
        let k = ready.index_of(id);
        assert(ready[k] == id);
    }
    assert forall|k: int| 0 <= k < reports.len() implies before.ready().contains(
        (#[trigger] reports[k]).slice_id,
    ) && reports[k] == after.report(reports[k].slice_id) by {
        let id = ready[k];
        assert(ready.to_set().contains(id));
        assert(before.is_ready(id));
        assert(set![id].contains(id));
        assert(after.slices[id] == before.sealed_slice(id, trigger));
        assert(before.with_sealed(set![id], trigger).slices[id] == before.sealed_slice(id, trigger));
    }
    assert forall|a: int, b: int| 0 <= a < b < reports.len() implies (#[trigger] reports[a]).slice_id
        < (#[trigger] reports[b]).slice_id by {
        assert(ready[a].ord() < ready[b].ord());
    }
    if reports.len() == 0 {
        assert(before.ready() =~= Set::<u64>::empty());
    } else {
        assert(ready.to_set().contains(ready[0]));
    }
}

/// What is reported of a slice that gets sealed.
spec fn sealed_report(model: ExecutorModel, id: u64, trigger: u64) -> SliceReport {
    model.with_sealed(set![id], trigger).report(id)
}

/// Every vertex is counted as eligible or as ineligible.
pub proof fn lemma_vertex_counts(s: Snapshot, base: Seq<Digest>)
    requires
        s.stands(base),
        base.no_duplicates(),
    ensures
        s.metrics(base).eligible_vertex_count + s.metrics(base).ineligible_vertex_count
            == base.len(),
{
    reveal(Snapshot::stands);
    let nodes = by_key(s.certificates, base.to_set());
    lemma_by_key_exists(s.certificates, base);
    lemma_tie_sorted_distinct(s.certificates, nodes);
    nodes.unique_seq_to_set();
    base.unique_seq_to_set();
    lemma_count_split(
        nodes,
        |x: Digest| true,
        |x: Digest| s.is_eligible(x),
        |x: Digest| !s.is_eligible(x),
    );
    lemma_count_all(nodes, |x: Digest| true);
}

/// What leaves the executor when a slice is released.
#[derive(Debug)]
pub struct ReleasedSlice {
    pub slice_id: u64,
    pub max_round: Round,
    pub seal_horizon: Round,
    pub sealed: SealedSlice,
    /// The certificates in execution order.
    pub certificates: Vec<Certificate>,
}

impl View for ReleasedSlice {
    type V = ReleaseModel;

    open spec fn view(&self) -> ReleaseModel {
        ReleaseModel {
            slice_id: self.slice_id,
            max_round: self.max_round,
            seal_horizon: self.seal_horizon,
            sealed: self.sealed@,
            certificates: models(self.certificates@),
        }
    }
}

/// What leaves, slice by slice.
pub open spec fn release_models(released: Seq<ReleasedSlice>) -> Seq<ReleaseModel> {
    released.map_values(|slice: ReleasedSlice| slice@)
}

/// Releasing slices keeps the executor valid.
pub proof fn lemma_release_valid(model: ExecutorModel)
    requires
        model.valid(),
    ensures
        model.without_free().valid(),
{
    let after = model.without_free();
    assert forall|d: Digest| #[trigger] after.evidence.contains_key(d) implies after.is_active(d)
        && after.certificates.contains_key(d) && after.evidence[d].round
        == after.certificates[d].round by {
        assert(model.evidence.contains_key(d));
        let id = choose|id: u64| #[trigger]
            model.slices.contains_key(id) && model.slices[id].sealed is None
                && model.slices[id].members.contains(d);
        assert(!model.is_free(id));
        assert(after.slices.contains_key(id));
    }
    assert forall|id: u64| #[trigger] after.slices.contains_key(id) implies after.slice_valid(id) by {
        assert(model.slices.contains_key(id));
        assert(model.slice_valid(id));
    }
}

impl ExecutorModel {
    /// The executor without the slices.
    pub open spec fn without(self, ids: Set<u64>) -> ExecutorModel {
        ExecutorModel { slices: self.slices.remove_keys(ids), ..self }
    }
}

/// The lowest slice that is left can be released if it is sealed.
pub proof fn lemma_lowest_free(model: ExecutorModel, done: Seq<u64>, id: u64)
    requires
        forall|k: int| 0 <= k < done.len() ==> model.is_free(#[trigger] done[k]),
        model.slices.contains_key(id),
        model.slices[id].sealed is Some,
        forall|j: u64| #[trigger]
            model.slices.contains_key(j) && !done.to_set().contains(j) ==> id <= j,
    ensures
        model.is_free(id),
{
    assert forall|j: u64| #[trigger] model.slices.contains_key(j) && j <= id implies model.slices[j].sealed is Some by {
        if done.to_set().contains(j) {
            let k = done.index_of(j);
            assert(done[k] == j);
            assert(model.is_free(j));
        }
    }
}

/// Releasing the lowest slice keeps the executor valid.
proof fn lemma_without_slice_valid(model: ExecutorModel, id: u64)
    requires
        model.valid(),
        model.is_next(id),
    ensures
        model.without_slice(id).valid(),
{
    let after = model.without_slice(id);
    assert forall|d: Digest| #[trigger] after.evidence.contains_key(d) implies after.is_active(d)
        && after.certificates.contains_key(d) && after.evidence[d].round
        == after.certificates[d].round by {
        assert(model.evidence.contains_key(d));
        let j = choose|j: u64| #[trigger]
            model.slices.contains_key(j) && model.slices[j].sealed is None
                && model.slices[j].members.contains(d);
        assert(after.slices.contains_key(j));
    }
    assert forall|j: u64| #[trigger] after.slices.contains_key(j) implies after.slice_valid(j) by {
        assert(model.slices.contains_key(j));
        assert(model.slice_valid(j));
    }
}

/// Once no slice can be released any more, all that could be have left.
pub proof fn lemma_all_free_left(model: ExecutorModel, done: Seq<u64>)
    requires
        forall|k: int| 0 <= k < done.len() ==> model.is_free(#[trigger] done[k]),
        forall|id: u64| !#[trigger] model.without(done.to_set()).is_free(id),
    ensures
        done.to_set() == Set::new(|id: u64| model.is_free(id)),
        model.without(done.to_set()) == model.without_free(),
{
    let free = Set::new(|id: u64| model.is_free(id));
    let left = model.without(done.to_set());
    assert forall|id: u64| done.to_set().contains(id) <==> free.contains(id) by {
        if done.contains(id) {
            let k = done.index_of(id);
            assert(done[k] == id);
        }
        if model.is_free(id) && !done.to_set().contains(id) {
            assert(left.slices.contains_key(id));
            assert forall|j: u64| #[trigger]
                left.slices.contains_key(j) && j <= id implies left.slices[j].sealed is Some by {
                assert(model.slices.contains_key(j));
            }
            assert(left.is_free(id));
        }
    }
    assert(done.to_set() =~= free);
}

/// What has left are the slices that can be released, in the order of their numbers.
pub proof fn lemma_out_releases(model: ExecutorModel, done: Seq<u64>, out: Seq<ReleaseModel>)
    requires
        increasing(done),
        done.to_set() == Set::new(|id: u64| model.is_free(id)),
        out.len() == done.len(),
        forall|k: int| 0 <= k < done.len() ==> #[trigger] out[k] == model.release(done[k]),
    ensures
        model.releases(out),
{
    assert forall|i: int| 0 <= i < out.len() implies model.is_free((#[trigger] out[i]).slice_id)
        && out[i] == model.release(out[i].slice_id) by {
        assert(done.to_set().contains(done[i]));
    }
    assert forall|i: int, j: int| 0 <= i < j < out.len() implies (#[trigger] out[i]).slice_id < (
    #[trigger] out[j]).slice_id by {
        assert(done[i].ord() < done[j].ord());
    }
    assert forall|id: u64| #[trigger] model.is_free(id) implies exists|i: int|
        0 <= i < out.len() && (#[trigger] out[i]).slice_id == id by {
        assert(done.to_set().contains(id));
        let k = done.index_of(id);
        assert(done[k] == id);
        assert(out[k].slice_id == id);
    }
}

impl MrvExecutor {
    /// The certificates of the vertices.
    fn gather_certificates(&self, order: &Vec<Digest>) -> (certificates: Vec<Certificate>)
        requires
            forall|d: Digest| #[trigger] order@.contains(d) ==> self.store@.contains_key(d),
        ensures
            models(certificates@) == order@.map_values(|d: Digest| self@.certificates[d]),
    {
        let ghost stored = self@.certificates;
        let count = order.len();
        let mut certificates: Vec<Certificate> = Vec::new();
        let mut i: usize = 0;
        while i < count
            invariant
                i <= count,
                count == order@.len(),
                stored == self@.certificates,
                forall|d: Digest| #[trigger] order@.contains(d) ==> self.store@.contains_key(d),
                certificates@.len() == i,
                forall|k: int| 0 <= k < i ==> (#[trigger] certificates@[k])@ == stored[order@[k]],
            decreases count - i,
        {
            let digest = order[i];
            assert(order@.contains(digest));
            let certificate = self.store.get(&digest).expect(
                "sealed slice member must remain in the committed store",
            ).clone();
            certificates.push(certificate);
            i = i + 1;
        }
        assert(models(certificates@) =~= order@.map_values(|d: Digest| stored[d]));
        certificates
    }

    /// Whether the lowest slice is sealed.
    fn lowest_is_sealed(&self) -> (yes: bool)
        ensures
            yes ==> self.slices.key_seq().len() > 0 && self@.is_next(self.slices.key_seq()[0]),
            !yes ==> forall|j: u64| #[trigger]
                self@.slices.contains_key(j) ==> exists|i: u64| #[trigger]
                    self@.slices.contains_key(i) && i <= j && self@.slices[i].sealed is None,
    {
        let ghost keys = self.slices.key_seq();
        if self.slices.len() == 0 {
            assert(forall|j: u64| self.slices@.dom().contains(j) ==> keys.contains(j));
            return false;
        }
        let slice = self.slices.value_at(0);
        proof {
            assert(self@.slices[keys[0]] == slice@);
            assert forall|j: u64| #[trigger] self@.slices.contains_key(j) implies self@.slices.contains_key(
                keys[0],
            ) && keys[0] <= j by {
                assert(self.slices@.dom().contains(j));
                assert(keys.contains(j));
                let at = keys.index_of(j);
                assert(keys[at] == j);
                if at > 0 {
                    assert(keys[0].ord() < keys[at].ord());
                }
            }
            assert(keys.to_set().contains(keys[0]));
        }
        slice.sealed.is_some()
    }

    /// Releases the lowest slice, with its certificates in execution order, unless it is unsealed.
    /// Every other slice, the store and the evidence stay as they are.
    pub fn release_next_slice(&mut self) -> (released: Option<ReleasedSlice>)
        requires
            old(self)@.valid(),
        ensures
            final(self)@.valid(),
            match released {
                Some(slice) => {
                    &&& old(self)@.is_next(slice.slice_id)
                    &&& slice@ == old(self)@.release(slice.slice_id)
                    &&& final(self)@ == old(self)@.without_slice(slice.slice_id)
                },
                None => {
                    &&& forall|id: u64| !#[trigger] old(self)@.is_free(id)
                    &&& final(self)@ == old(self)@
                },
            },
    {
        let ghost before = self@;
        if !self.lowest_is_sealed() {
            assert forall|id: u64| !#[trigger] before.is_free(id) by {
                if before.slices.contains_key(id) {
                    let low = choose|i: u64| #[trigger]
                        before.slices.contains_key(i) && i <= id && before.slices[i].sealed is None;
                    assert(before.slices.contains_key(low));
                }
            }
            return None;
        }
        let id: u64 = self.slices.key_at(0);
        proof {
            assert(before.slice_valid(id));
            assert(self.slices@.contains_key(id));
        }
        let slice = self.slices.remove(&id).expect("release-ready slice must exist");
        assert(slice@ == before.slices[id]);
        assert(self@.slices =~= before.slices.remove(id));
        let sealed = slice.sealed.expect("release-ready slice must be sealed");
        proof {
            assert(sealed@ == before.slices[id].sealed->0);
            assert forall|d: Digest| #[trigger] sealed.order@.contains(d) implies self.store@.contains_key(
            d) by {
                assert(before.certificates.contains_key(d));
                assert(self@.certificates.contains_key(d));
            }
            lemma_without_slice_valid(before, id);
        }
        let certificates = self.gather_certificates(&sealed.order);
        let released = ReleasedSlice {
            slice_id: id,
            max_round: slice.max_round,
            seal_horizon: slice.seal_horizon,
            sealed,
            certificates,
        };
        assert(released@ =~= before.release(id));
        Some(released)
    }

    /// Releases the sealed slices that no unsealed slice precedes, in the order of their numbers,
    /// with their certificates in execution order.
    pub fn release_ready_slices(&mut self) -> (released: Vec<ReleasedSlice>)
        requires
            old(self)@.valid(),
        ensures
            final(self)@ == old(self)@.without_free(),
            final(self)@.valid(),
            old(self)@.releases(release_models(released@)),
    {
        let ghost before = self@;
        let ghost mut done: Seq<u64> = Seq::empty();
        let mut released: Vec<ReleasedSlice> = Vec::new();
        proof {
            self.slices.lemma_finite();
            assert(before.slices.dom() =~= self.slices@.dom());
        }
        assert(before.slices.remove_keys(done.to_set()) =~= before.slices);
        loop
            invariant
                before.valid(),
                self@.valid(),
                self@ == before.without(done.to_set()),
                self@.slices.dom().finite(),
                released@.len() == done.len(),
                increasing(done),
                forall|k: int| 0 <= k < done.len() ==> before.is_free(#[trigger] done[k]),
                forall|k: int|
                    0 <= k < done.len() ==> (#[trigger] released@[k])@ == before.release(done[k]),
                forall|k: int, j: u64|
                    0 <= k < done.len() && #[trigger] self@.slices.contains_key(j)
                        ==> #[trigger] done[k] < j,
            ensures
                forall|id: u64| !#[trigger] self@.is_free(id),
            decreases self@.slices.len(),
        {
            let ghost current = self@;
            match self.release_next_slice() {
                None => break ,
                Some(slice) => {
                    let ghost id = slice.slice_id;
                    proof {
                        assert forall|j: u64| #[trigger]
                            before.slices.contains_key(j) && !done.to_set().contains(
                                j,
                            ) implies id <= j by {
                            assert(current.slices.contains_key(j));
                        }
                        assert(before.slices.contains_key(id) && before.slices[id]
                            == current.slices[id]);
                        lemma_lowest_free(before, done, id);
                        assert(slice@ =~= before.release(id));
                    }
                    released.push(slice);
                    proof {
                        let longer = done.push(id);
                        assert forall|j: u64|
                            longer.to_set().contains(j) <==> done.to_set().contains(j) || j
                                == id by {
                            lemma_take_next(longer, done.len() as int);
                            assert(longer.take(done.len() as int) =~= done);
                            assert(longer.take(longer.len() as int) =~= longer);
                        }
                        assert(self@.slices =~= before.slices.remove_keys(longer.to_set()));
                        assert(current.slices.contains_key(id));
                        done = longer;
                    }
                },
            }
        }
        proof {
            lemma_all_free_left(before, done);
            assert(self@ == before.without_free());
            lemma_release_valid(before);
            lemma_out_releases(before, done, release_models(released@));
        }
        released
    }
}

/// What is reported of a slice when it is registered.
#[derive(Clone, Copy, Debug, PartialEq, Eq)]
pub struct SliceRegistration {
    pub slice_id: u64,
    pub leader_round: Round,
    pub leader_digest: Digest,
    pub slice_size: usize,
    pub seal_horizon: Round,
    pub member_set_digest: Digest,
    pub member_order_digest: Digest,
    pub cumulative_member_count: u64,
    pub export_prefix_digest: Digest,
}

impl ExecutorModel {
    /// What is reported of a commit when its slice is registered.
    pub open spec fn registration(self, commit: CommitModel) -> SliceRegistration {
        SliceRegistration {
            slice_id: commit.batch_index,
            leader_round: commit.leader_round,
            leader_digest: commit.leader_digest,
            slice_size: commit.certificates.len() as usize,
            seal_horizon: new_slice(self, commit).seal_horizon,
            member_set_digest: member_set_fingerprint(commit.members().to_set()),
            member_order_digest: fingerprint("MRV-MEMBER-ORDER-v1".spec_bytes(), commit.members()),
            cumulative_member_count: booked(self, commit).member_count as u64,
            export_prefix_digest: booked(self, commit).prefix,
        }
    }
}

/// Why a commit cannot be registered.
#[derive(Clone, Copy, Debug, PartialEq, Eq)]
pub enum CommitViolation {
    /// A vertex belongs to a slice already.
    DuplicateMember {
        first_slice_id: u64,
        duplicate_slice_id: u64,
        member: Digest,
        member_round: Round,
        member_creator: PublicKey,
    },
    /// The number of the slice is in use.
    DuplicateSlice { slice_id: u64 },
}

impl ExecutorModel {
    /// The slice of a vertex once the first `count` vertices of the commit are assigned to its
    /// slice.
    pub open spec fn owners_with(self, commit: CommitModel, count: int) -> Map<Digest, u64> {
        with_owners(self.owners, commit.members().take(count), commit.batch_index)
    }

    /// Whether the first vertex of the commit that belongs to a slice already is the one at the
    /// place.
    pub open spec fn repeats_at(self, commit: CommitModel, place: int) -> bool {
        &&& self.owners_with(commit, place).contains_key(commit.members()[place])
        &&& forall|k: int|
            0 <= k < place ==> !self.owners_with(commit, k).contains_key(
                #[trigger] commit.members()[k],
            )
    }
}

/// What a commit brings about before slices are released.
#[derive(Debug)]
pub struct TakenCommit {
    /// The new slice, unless the commit is empty.
    pub registered: Option<SliceRegistration>,
    /// The slices that the commit seals.
    pub sealed: Vec<SliceReport>,
}

/// What a commit brings about.
#[derive(Debug)]
pub struct CommitOutcome {
    /// The new slice, unless the commit is empty.
    pub registered: Option<SliceRegistration>,
    /// The slices that the commit seals.
    pub sealed: Vec<SliceReport>,
    /// The slices that leave.
    pub released: Vec<ReleasedSlice>,
}

impl MrvExecutor {
    /// Checks that the vertices of the commit belong to no slice yet, and that the number of its
    /// slice is free. Reports the first vertex that belongs to a slice already.
    pub fn check_commit(&self, commit: &CommittedSubDag) -> (result: Result<(), CommitViolation>)
        ensures
            result is Ok <==> self@.accepts(commit@),
            match result {
                Ok(()) => true,
                Err(CommitViolation::DuplicateMember {
                    first_slice_id,
                    duplicate_slice_id,
                    member,
                    member_round,
                    member_creator,
                }) => exists|place: int|
                    0 <= place < commit@.members().len() && #[trigger] self@.repeats_at(commit@, place)
                        && first_slice_id == self@.owners_with(commit@, place)[member]
                        && duplicate_slice_id == commit@.batch_index && member
                        == commit@.members()[place] && member_round
                        == commit@.certificates[place].round && member_creator
                        == commit@.certificates[place].origin,
                Err(CommitViolation::DuplicateSlice { slice_id }) => {
                    &&& slice_id == commit@.batch_index
                    &&& self@.slices.contains_key(slice_id)
                    &&& commit@.certificates.len() > 0
                    &&& forall|place: int|
                        0 <= place < commit@.members().len() ==> !#[trigger] self@.repeats_at(
                            commit@,
                            place,
                        )
                },
            },
    {
        let ghost model = self@;
        let ghost members = commit@.members();
        let slice_id: u64 = commit.batch_index;
        let count = commit.certificates.len();
        let mut seen: OrderedSet<Digest> = OrderedSet::new();
        let mut i: usize = 0;
        assert(members.take(0).to_set() =~= seen@);
        while i < count
            invariant
                i <= count,
                count == commit.certificates@.len(),
                model == self@,
                members == commit@.members(),
                members.len() == count,
                slice_id == commit@.batch_index,
                seen@ == members.take(i as int).to_set(),
                members.take(i as int).no_duplicates(),
                forall|k: int|
                    0 <= k < i ==> !model.owners_with(commit@, k).contains_key(#[trigger] members[k]),
                forall|k: int| 0 <= k < i ==> !model.owners.contains_key(#[trigger] members[k]),
            decreases count - i,
        {
            let certificate = &commit.certificates[i];
            let member = certificate.digest;
            assert(member == members[i as int]);
            let first_slice_id: Option<u64> = if seen.contains(&member) {
                Some(slice_id)
            } else {
                match self.seen_slice_members.get(&member) {
                    Some(id) => Some(*id),
                    None => None,
                }
            };
            assert(seen@.contains(member) <==> members.take(i as int).contains(member));
            if let Some(first_slice_id) = first_slice_id {
                assert(model.repeats_at(commit@, i as int));
                assert(commit@.certificates[i as int] == certificate@);
                assert(!model.accepts(commit@)) by {
                    if members.take(i as int).contains(member) {
                        let k = members.take(i as int).index_of(member);
                        assert(members.take(i as int)[k] == member);
                        assert(members[k] == members[i as int]);
                    }
                }
                return Err(
                    CommitViolation::DuplicateMember {
                        first_slice_id,
                        duplicate_slice_id: slice_id,
                        member,
                        member_round: certificate.round,
                        member_creator: certificate.origin,
                    },
                );
            }
            proof {
                lemma_take_next(members, i as int);
                let shorter = members.take(i as int);
                let longer = members.take(i + 1);
                assert(longer =~= shorter.push(member));
                assert(!shorter.contains(member));
                assert(longer.no_duplicates());
            }
            let _ = seen.insert(member);
            i = i + 1;
        }
        assert(members.take(count as int) =~= members);
        if count > 0 && self.slices.contains_key(&slice_id) {
            return Err(CommitViolation::DuplicateSlice { slice_id });
        }
        assert(self@.slices.contains_key(slice_id) == self.slices@.contains_key(slice_id));
        Ok(())
    }

    /// Assigns the vertices of a commit to its slice.
    fn assign_members(&mut self, members: &[Digest], slice_id: u64)
        ensures
            final(self).seen_slice_members@ == with_owners(
                old(self).seen_slice_members@,
                members@,
                slice_id,
            ),
            *final(self) == (MrvExecutor {
                seen_slice_members: final(self).seen_slice_members,
                ..*old(self)
            }),
    {
        let ghost owners = self.seen_slice_members@;
        let ghost before = *self;
        let count = members.len();
        let mut i: usize = 0;
        assert(owners =~= with_owners(owners, members@.take(0), slice_id));
        while i < count
            invariant
                i <= count,
                count == members@.len(),
                *self == (MrvExecutor { seen_slice_members: self.seen_slice_members, ..before }),
                self.seen_slice_members@ == with_owners(
                    owners,
                    members@.take(i as int),
                    slice_id,
                ),
            decreases count - i,
        {
            let member = members[i];
            let _ = self.seen_slice_members.insert(member, slice_id);
            proof {
                let shorter = members@.take(i as int);
                let longer = members@.take(i + 1);
                assert(longer =~= shorter.push(member));
                assert forall|d: Digest| longer.contains(d) <==> shorter.contains(d) || d == member by {
                    if shorter.contains(d) {
                        assert(longer[shorter.index_of(d)] == d);
                    }
                    assert(longer[i as int] == member);
                }
                assert(self.seen_slice_members@ =~= with_owners(owners, longer, slice_id));
            }
            i = i + 1;
        }
        assert(members@.take(count as int) =~= members@);
    }

    /// Enters a commit in the books.
    fn book_commit(&mut self, commit: &CommittedSubDag, members: &Vec<Digest>) -> (digests: (
        Digest,
        Digest,
    ))
        requires
            members@ == commit@.members(),
            members@.no_duplicates(),
            forall|i: int|
                0 <= i < members@.len() ==> !old(self)@.owners.contains_key(#[trigger] members@[i]),
            old(self)@.owners.dom().finite(),
            old(self)@.member_count == old(self)@.owners.len(),
        ensures
            final(self)@ == booked(old(self)@, commit@),
            digests.0 == member_set_fingerprint(members@.to_set()),
            digests.1 == fingerprint("MRV-MEMBER-ORDER-v1".spec_bytes(), members@),
    {
        let ghost before = self@;
        self.assign_members(members, commit.batch_index);
        let registered = self.seen_slice_members.len();
        proof {
            lemma_owner_count(before.owners, members@, commit.batch_index);
            assert(members@.len() == members.len());
            assert(registered == before.member_count + members@.len());
        }
        let member_order_digest = fingerprint_digests("MRV-MEMBER-ORDER-v1".as_bytes(), members);
        let member_set_digest = fingerprint_digests(
            "MRV-MEMBER-SET-v1".as_bytes(),
            &sort_digests(members),
        );
        self.cumulative_member_count = self.cumulative_member_count + members.len() as u64;
        self.export_prefix_digest = extend_prefix(
            &self.export_prefix_digest,
            commit.leader_round,
            &commit.leader_digest,
            &member_set_digest,
        );
        assert(self@.slices =~= before.slices);
        (member_set_digest, member_order_digest)
    }
}

/// The digests of the certificates.
fn member_digests(certificates: &Vec<Certificate>) -> (members: Vec<Digest>)
    ensures
        members@ == models(certificates@).map_values(
            |certificate: CertificateModel| certificate.digest,
        ),
{
    let count = certificates.len();
    let mut members: Vec<Digest> = Vec::new();
    let mut i: usize = 0;
    while i < count
        invariant
            i <= count,
            count == certificates@.len(),
            members@.len() == i,
            forall|k: int| 0 <= k < i ==> #[trigger] members@[k] == certificates@[k].digest,
        decreases count - i,
    {
        members.push(certificates[i].digest);
        i = i + 1;
    }
    assert(members@ =~= models(certificates@).map_values(
        |certificate: CertificateModel| certificate.digest,
    ));
    members
}

/// The highest round of the certificates, or zero.
fn max_round_of(certificates: &Vec<Certificate>) -> (max_round: Round)
    ensures
        max_round == highest_round(models(certificates@)),
{
    let ghost all = models(certificates@);
    let count = certificates.len();
    let mut max_round: Round = 0;
    let mut i: usize = 0;
    assert(all.take(0) =~= Seq::<CertificateModel>::empty());
    while i < count
        invariant
            i <= count,
            count == certificates@.len(),
            all == models(certificates@),
            max_round == highest_round(all.take(i as int)),
        decreases count - i,
    {
        proof {
            assert(all.take(i + 1).drop_last() =~= all.take(i as int));
            assert(all[i as int] == certificates@[i as int]@);
        }
        if certificates[i].round > max_round {
            max_round = certificates[i].round;
        }
        i = i + 1;
    }
    assert(all.take(count as int) =~= all);
    max_round
}

impl MrvExecutor {
    /// Registers a commit: its certificates join the committed prefix, and its slice waits to be
    /// sealed.
    fn register_slice(&mut self, commit: CommittedSubDag) -> (registration: SliceRegistration)
        requires
            old(self)@.valid(),
            old(self)@.accepts(commit@),
            commit@.certificates.len() > 0,
        ensures
            final(self)@ == registered(old(self)@, commit@),
            registration == old(self)@.registration(commit@),
    {
        let ghost before = self@;
        let slice_id: u64 = commit.batch_index;
        let leader_round: Round = commit.leader_round;
        let leader_digest = commit.leader_digest;
        let members = member_digests(&commit.certificates);
        let max_round = max_round_of(&commit.certificates);
        assert(commit@.certificates =~= models(commit.certificates@));
        assert(members@ == commit@.members());
        let (member_set_digest, member_order_digest) = self.book_commit(&commit, &members);
        self.commit_certificates(sort_by_round(commit.certificates));
        let ghost committed = self@;
        let seal_horizon: Round = max_round.saturating_add(self.mrv_window);
        proof {
            lemma_registered_valid(before, commit@);
        }
        let registration = SliceRegistration {
            slice_id,
            leader_round,
            leader_digest,
            slice_size: members.len(),
            seal_horizon,
            member_set_digest,
            member_order_digest,
            cumulative_member_count: self.cumulative_member_count,
            export_prefix_digest: self.export_prefix_digest,
        };
        proof {
            lemma_commit_all_frame(
                booked(before, commit@),
                crate::model::by_round(commit@.certificates),
            );
        }
        let slice = SliceState { members, max_round, seal_horizon, sealed: None };
        assert(slice@ =~= new_slice(before, commit@));
        let _ = self.slices.insert(slice_id, slice);
        assert(self@.slices =~= committed.slices.insert(slice_id, new_slice(before, commit@)));
        registration
    }

    /// Registers the slice of a commit and seals the slices whose horizon is reached. What can be
    /// released now is left to `release_next_slice`.
    pub fn take_commit(&mut self, committed_slice: CommittedSubDag) -> (taken: TakenCommit)
        requires
            old(self)@.settled(),
            old(self)@.accepts(committed_slice@),
        ensures
            final(self)@.valid(),
            committed_slice@.certificates.len() == 0 ==> {
                &&& final(self)@ == old(self)@
                &&& taken.registered is None
                &&& taken.sealed@.len() == 0
            },
            committed_slice@.certificates.len() > 0 ==> {
                let start = registered(old(self)@, committed_slice@);
                &&& final(self)@ == old(self)@.sealed_by(committed_slice@)
                &&& taken.registered == Some(old(self)@.registration(committed_slice@))
                &&& final(self)@.reports(start.ready(), taken.sealed@)
                &&& taken.sealed@.len() == 0 <==> start.ready() == Set::<u64>::empty()
                &&& forall|id: u64| #[trigger]
                    start.is_ready(id) ==> start.snapshot().stands(start.slices[id].members)
            },
    {
        if committed_slice.certificates.len() == 0 {
            assert(committed_slice@.certificates.len() == 0);
            return TakenCommit { registered: None, sealed: Vec::new() };
        }
        assert(committed_slice@.certificates.len() > 0);
        let slice_id: u64 = committed_slice.batch_index;
        proof {
            lemma_registered_valid(self@, committed_slice@);
        }
        let registration = self.register_slice(committed_slice);
        let sealed = self.seal_ready_slices(slice_id);
        TakenCommit { registered: Some(registration), sealed }
    }

    /// Ends a commit once its slices have left: where slices were sealed, drops the certificates
    /// that are no longer needed.
    pub fn finish_commit(&mut self, taken: &TakenCommit)
        ensures
            final(self)@ == (if taken.sealed@.len() > 0 {
                old(self)@.collected()
            } else {
                old(self)@
            }),
    {
        if taken.sealed.len() > 0 {
            self.garbage_collect_store();
        }
    }

    /// Takes a commit: registers its slice, seals the slices whose horizon is reached, and
    /// releases the sealed slices that no unsealed slice precedes.
    pub fn on_committed_slice(&mut self, committed_slice: CommittedSubDag) -> (outcome: CommitOutcome)
        requires
            old(self)@.settled(),
            old(self)@.accepts(committed_slice@),
        ensures
            final(self)@ == old(self)@.next(committed_slice@),
            final(self)@.settled(),
            committed_slice@.certificates.len() == 0 ==> outcome.registered is None
                && outcome.sealed@.len() == 0 && outcome.released@.len() == 0,
            committed_slice@.certificates.len() > 0 ==> {
                let start = registered(old(self)@, committed_slice@);
                let sealed = old(self)@.sealed_by(committed_slice@);
                &&& outcome.registered == Some(old(self)@.registration(committed_slice@))
                &&& sealed.reports(start.ready(), outcome.sealed@)
            },
            old(self)@.hands_out(committed_slice@, release_models(outcome.released@)),
    {
        let ghost before = self@;
        let ghost commit = committed_slice@;
        let taken = self.take_commit(committed_slice);
        let ghost sealed = self@;
        let released = self.release_ready_slices();
        self.finish_commit(&taken);
        proof {
            if commit.certificates.len() == 0 {
                lemma_settled_keeps_all(before, release_models(released@));
            } else {
                lemma_next_settled(before, commit);
            }
        }
        CommitOutcome { registered: taken.registered, sealed: taken.sealed, released }
    }
}

/// Between two commits nothing can be released.
proof fn lemma_settled_keeps_all(model: ExecutorModel, out: Seq<ReleaseModel>)
    requires
        model.settled(),
        model.releases(out),
    ensures
        model.without_free() == model,
        out.len() == 0,
{
    assert(model.without_free().slices =~= model.slices);
    if out.len() > 0 {
        assert(model.is_free(out[0].slice_id));
    }
}

/// Joining certificates leave slices and books alone.
proof fn lemma_commit_all_frame(model: ExecutorModel, certificates: Seq<CertificateModel>)
    ensures
        commit_all(model, certificates).slices == model.slices,
        commit_all(model, certificates).window == model.window,
        commit_all(model, certificates).member_count == model.member_count,
        commit_all(model, certificates).prefix == model.prefix,
    decreases certificates.len(),
{
    if certificates.len() > 0 {
        lemma_commit_all_frame(model, certificates.drop_last());
    }
}

} // verus!
