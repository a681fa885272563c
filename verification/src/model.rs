//! What the executor holds, and what becomes of it when a slice is committed.

use vstd::prelude::*;
use vstd::string::*;

use crate::counting::count_where;
use crate::fingerprint::{extended_prefix, fingerprint, member_set_fingerprint};
use crate::ordering::Snapshot;
use crate::scc::lists;
use crate::state::{Evidence, MrvExecutor, SealedMetrics, SealedSlice, SliceState};
use crate::types::{CertificateModel, CommitModel, Digest, PublicKey, Round};
use crate::visibility::{after_certificate, later, seen_at};

verus! {

/// What a sealed slice holds.
#[verifier::ext_equal]
pub struct SealedModel {
    pub components: Seq<Seq<Digest>>,
    pub order: Seq<Digest>,
    pub metrics: SealedMetrics,
}

impl View for SealedSlice {
    type V = SealedModel;

    open spec fn view(&self) -> SealedModel {
        SealedModel {
            components: lists(self.ordered_sccs@),
            order: self.order@,
            metrics: self.metrics,
        }
    }
}

/// What a slice holds between registration and release.
#[verifier::ext_equal]
pub struct SliceModel {
    pub members: Seq<Digest>,
    pub max_round: Round,
    pub seal_horizon: Round,
    pub sealed: Option<SealedModel>,
}

impl View for SliceState {
    type V = SliceModel;

    open spec fn view(&self) -> SliceModel {
        SliceModel {
            members: self.members@,
            max_round: self.max_round,
            seal_horizon: self.seal_horizon,
            sealed: match self.sealed {
                Some(sealed) => Some(sealed@),
                None => None,
            },
        }
    }
}

/// What the executor holds.
#[verifier::ext_equal]
pub struct ExecutorModel {
    pub certificates: Map<Digest, CertificateModel>,
    pub evidence: Map<Digest, Evidence>,
    pub slices: Map<u64, SliceModel>,
    pub floor: Option<Round>,
    pub frontier: Round,
    pub window: Round,
    pub quorum: nat,
    pub theta: int,
    /// The slice of every vertex ever registered.
    pub owners: Map<Digest, u64>,
    pub member_count: nat,
    pub prefix: Digest,
}

impl View for MrvExecutor {
    type V = ExecutorModel;

    open spec fn view(&self) -> ExecutorModel {
        ExecutorModel {
            certificates: self.certificates(),
            evidence: self.evidence(),
            slices: self.slices@.map_values(|slice: SliceState| slice@),
            floor: self.active_floor_round,
            frontier: self.frontier_round,
            window: self.mrv_window,
            quorum: self.reach_threshold as nat,
            theta: self.delta_threshold as int,
            owners: self.seen_slice_members@,
            member_count: self.cumulative_member_count as nat,
            prefix: self.export_prefix_digest,
        }
    }
}

/// Whether `floor` is the lowest round of a vertex with evidence.
pub open spec fn is_floor(evidence: Map<Digest, Evidence>, floor: Option<Round>) -> bool {
    match floor {
        Some(round) => {
            &&& exists|d: Digest| #[trigger] evidence.contains_key(d) && evidence[d].round == round
            &&& forall|d: Digest| #[trigger] evidence.contains_key(d) ==> evidence[d].round >= round
        },
        None => forall|d: Digest| !#[trigger] evidence.contains_key(d),
    }
}

/// The lowest round of a vertex with evidence.
pub open spec fn lowest_round(evidence: Map<Digest, Evidence>) -> Option<Round> {
    choose|floor: Option<Round>| is_floor(evidence, floor)
}

/// The floor, lowered to the round if it lies above.
pub open spec fn floor_with(floor: Option<Round>, round: Round) -> Option<Round> {
    match floor {
        Some(current) if current <= round => Some(current),
        _ => Some(round),
    }
}

/// The highest round of the certificates, or zero.
pub open spec fn highest_round(certificates: Seq<CertificateModel>) -> Round
    decreases certificates.len(),
{
    if certificates.len() == 0 {
        0
    } else {
        let rest = highest_round(certificates.drop_last());
        if certificates.last().round > rest {
            certificates.last().round
        } else {
            rest
        }
    }
}

/// How many of the certificates are not of a higher round.
pub open spec fn count_up_to(certificates: Seq<CertificateModel>, round: Round) -> nat {
    count_where(certificates, |certificate: CertificateModel| certificate.round <= round)
}

/// The certificates by round, those of one round in the order in which they came: each comes
/// after those before it that are not of a higher round.
pub open spec fn by_round(certificates: Seq<CertificateModel>) -> Seq<CertificateModel>
    decreases certificates.len(),
{
    if certificates.len() == 0 {
        certificates
    } else {
        let rest = by_round(certificates.drop_last());
        let last = certificates.last();
        rest.insert(count_up_to(rest, last.round) as int, last)
    }
}

/// A certificate joins the committed prefix: it is stored, gets evidence of its own, and adds to
/// the evidence of the active vertices that it descends from.
pub open spec fn commit_one(model: ExecutorModel, certificate: CertificateModel) -> ExecutorModel {
    let digest = certificate.digest;
    let round = certificate.round;
    let certificates = model.certificates.insert(digest, certificate);
    let known = model.evidence.contains_key(digest);
    let evidence = if known {
        model.evidence
    } else {
        model.evidence.insert(digest, Evidence { round, seen: Map::<Round, Set<PublicKey>>::empty() })
    };
    let floor = if known {
        model.floor
    } else {
        floor_with(model.floor, round)
    };
    let from: Round = match floor {
        Some(lowest) => lowest,
        None => round,
    };
    ExecutorModel {
        certificates,
        evidence: after_certificate(
            certificates,
            evidence,
            from,
            digest,
            round,
            certificate.origin,
        ),
        floor,
        frontier: if round > model.frontier {
            round
        } else {
            model.frontier
        },
        ..model
    }
}

/// Certificates join the committed prefix one after the other.
pub open spec fn commit_all(
    model: ExecutorModel,
    certificates: Seq<CertificateModel>,
) -> ExecutorModel
    decreases certificates.len(),
{
    if certificates.len() == 0 {
        model
    } else {
        commit_one(commit_all(model, certificates.drop_last()), certificates.last())
    }
}

/// The vertices of a commit are assigned to its slice.
pub open spec fn with_owners(owners: Map<Digest, u64>, members: Seq<Digest>, id: u64) -> Map<
    Digest,
    u64,
> {
    Map::new(
        |d: Digest| owners.contains_key(d) || members.contains(d),
        |d: Digest|
            if members.contains(d) {
                id
            } else {
                owners[d]
            },
    )
}

/// The commit is entered in the books: its vertices belong to its slice, and the fingerprint of
/// the committed prefix covers it.
pub open spec fn booked(model: ExecutorModel, commit: CommitModel) -> ExecutorModel {
    ExecutorModel {
        owners: with_owners(model.owners, commit.members(), commit.batch_index),
        member_count: model.member_count + commit.certificates.len(),
        prefix: extended_prefix(
            model.prefix,
            commit.leader_round,
            commit.leader_digest,
            member_set_fingerprint(commit.members().to_set()),
        ),
        ..model
    }
}

/// The slice of a commit.
pub open spec fn new_slice(model: ExecutorModel, commit: CommitModel) -> SliceModel {
    let max_round = highest_round(commit.certificates);
    SliceModel {
        members: commit.members(),
        max_round,
        seal_horizon: later(max_round, model.window as int) as Round,
        sealed: None,
    }
}

/// The whole commit is registered: its certificates join in the order of their rounds, and its
/// slice waits to be sealed.
pub open spec fn registered(model: ExecutorModel, commit: CommitModel) -> ExecutorModel {
    let committed = commit_all(booked(model, commit), by_round(commit.certificates));
    ExecutorModel {
        slices: committed.slices.insert(commit.batch_index, new_slice(model, commit)),
        ..committed
    }
}

impl ExecutorModel {
    /// What the order of a slice depends on.
    pub open spec fn snapshot(self) -> Snapshot {
        Snapshot {
            certificates: self.certificates,
            evidence: self.evidence,
            window: self.window,
            quorum: self.quorum,
            theta: self.theta,
        }
    }

    /// Whether the slice can be sealed: the frontier has reached its horizon.
    pub open spec fn is_ready(self, id: u64) -> bool {
        &&& self.slices.contains_key(id)
        &&& self.slices[id].sealed is None
        &&& self.frontier >= self.slices[id].seal_horizon
    }

    /// The slices that can be sealed.
    pub open spec fn ready(self) -> Set<u64> {
        Set::new(|id: u64| self.is_ready(id))
    }

    /// The slice once it is sealed, on account of the commit `trigger`.
    pub open spec fn sealed_slice(self, id: u64, trigger: u64) -> SliceModel {
        let slice = self.slices[id];
        let nodes = slice.members.to_set();
        let order = self.snapshot().order(nodes);
        SliceModel {
            members: Seq::empty(),
            sealed: Some(
                SealedModel {
                    components: self.snapshot().components(nodes),
                    order,
                    metrics: SealedMetrics {
                        ordering: self.snapshot().metrics(slice.members),
                        snapshot_round: self.frontier,
                        trigger_slice_id: trigger,
                        trigger_export_prefix_digest: self.prefix,
                        execution_order_digest: fingerprint(
                            "MRV-EXECUTION-ORDER-v1".spec_bytes(),
                            order,
                        ),
                    },
                },
            ),
            ..slice
        }
    }

    /// The vertices of the slices.
    pub open spec fn members_of(self, ids: Set<u64>) -> Set<Digest> {
        Set::new(
            |d: Digest|
                exists|id: u64| #[trigger]
                    ids.contains(id) && self.slices.contains_key(id) && self.slices[id].members.contains(d),
        )
    }

    /// The slices are sealed at the present snapshot, and their evidence is given up.
    pub open spec fn with_sealed(self, ids: Set<u64>, trigger: u64) -> ExecutorModel {
        let evidence = self.evidence.remove_keys(self.members_of(ids));
        ExecutorModel {
            slices: Map::new(
                |id: u64| self.slices.contains_key(id),
                |id: u64|
                    if ids.contains(id) {
                        self.sealed_slice(id, trigger)
                    } else {
                        self.slices[id]
                    },
            ),
            evidence,
            floor: lowest_round(evidence),
            ..self
        }
    }

    /// Whether the slice can be released: it and all slices before it are sealed.
    pub open spec fn is_free(self, id: u64) -> bool {
        &&& self.slices.contains_key(id)
        &&& forall|j: u64| #[trigger]
            self.slices.contains_key(j) && j <= id ==> self.slices[j].sealed is Some
    }

    /// Whether the slice is the next to be released: it is sealed, and no slice precedes it.
    pub open spec fn is_next(self, id: u64) -> bool {
        &&& self.slices.contains_key(id)
        &&& self.slices[id].sealed is Some
        &&& forall|j: u64| #[trigger] self.slices.contains_key(j) ==> id <= j
    }

    /// The slice has left. Nothing else changes.
    pub open spec fn without_slice(self, id: u64) -> ExecutorModel {
        ExecutorModel { slices: self.slices.remove(id), ..self }
    }

    /// The slices that can be released have left.
    pub open spec fn without_free(self) -> ExecutorModel {
        ExecutorModel { slices: self.slices.remove_keys(Set::new(|id: u64| self.is_free(id))), ..self }
    }

    /// Whether the vertex is an output that awaits release.
    pub open spec fn is_queued(self, d: Digest) -> bool {
        exists|id: u64| #[trigger]
            self.slices.contains_key(id) && (self.slices[id].sealed matches Some(sealed)
                && sealed.order.contains(d))
    }

    /// Whether the certificate is still needed: for an output, or for ancestry queries.
    pub open spec fn is_needed(self, d: Digest) -> bool {
        self.is_queued(d) || (self.floor matches Some(floor) && self.certificates[d].round >= floor)
    }

    /// The certificates that are no longer needed have been dropped.
    pub open spec fn collected(self) -> ExecutorModel {
        ExecutorModel {
            certificates: self.certificates.restrict(Set::new(|d: Digest| self.is_needed(d))),
            ..self
        }
    }

    /// Whether the vertex belongs to an unsealed slice.
    pub open spec fn is_active(self, d: Digest) -> bool {
        exists|id: u64| #[trigger]
            self.slices.contains_key(id) && self.slices[id].sealed is None
                && self.slices[id].members.contains(d)
    }

    /// The certificate of every vertex of the slice that is still to be output is stored, and an
    /// unsealed slice has the evidence of its vertices.
    pub open spec fn slice_valid(self, id: u64) -> bool {
        let slice = self.slices[id];
        match slice.sealed {
            None => {
                &&& slice.members.len() > 0
                &&& slice.members.no_duplicates()
                &&& slice.seal_horizon == later(slice.max_round, self.window as int)
                &&& forall|d: Digest| #[trigger]
                    slice.members.contains(d) ==> {
                        &&& self.certificates.contains_key(d)
                        &&& self.evidence.contains_key(d)
                        &&& self.certificates[d].round <= slice.max_round
                        &&& self.owners.contains_key(d)
                        &&& self.owners[d] == id
                    }
            },
            Some(sealed) => {
                &&& slice.members.len() == 0
                &&& slice.seal_horizon == later(slice.max_round, self.window as int)
                &&& slice.seal_horizon <= self.frontier
                &&& sealed.order.no_duplicates()
                &&& forall|d: Digest| #[trigger]
                    sealed.order.contains(d) ==> {
                        &&& self.certificates.contains_key(d)
                        &&& self.owners.contains_key(d)
                        &&& self.owners[d] == id
                    }
            },
        }
    }

    /// What holds of the executor at all times.
    pub open spec fn valid(self) -> bool {
        &&& self.window > 0
        &&& self.quorum > 0
        &&& self.theta > 0
        &&& self.owners.dom().finite()
        &&& self.member_count == self.owners.len()
        &&& is_floor(self.evidence, self.floor)
        &&& forall|d: Digest| #[trigger]
            self.certificates.contains_key(d) ==> self.certificates[d].digest == d
                && self.certificates[d].round <= self.frontier && self.owners.contains_key(d)
        &&& forall|d: Digest| #[trigger]
            self.evidence.contains_key(d) ==> self.is_active(d) && self.certificates.contains_key(d)
                && self.evidence[d].round == self.certificates[d].round
        &&& forall|d: Digest, round: Round| (#[trigger] seen_at(self.evidence, d, round)).finite()
        &&& forall|id: u64| #[trigger] self.slices.contains_key(id) ==> self.slice_valid(id)
    }

    /// What holds of the executor between two commits: no slice is left that could be sealed or
    /// released, and no certificate that is not needed.
    pub open spec fn settled(self) -> bool {
        &&& self.valid()
        &&& forall|id: u64| !#[trigger] self.is_ready(id)
        &&& forall|id: u64| !#[trigger] self.is_free(id)
        &&& forall|d: Digest| #[trigger] self.certificates.contains_key(d) ==> self.is_needed(d)
    }
}

/// What leaves the executor when a slice is released.
#[verifier::ext_equal]
pub struct ReleaseModel {
    pub slice_id: u64,
    pub max_round: Round,
    pub seal_horizon: Round,
    pub sealed: SealedModel,
    pub certificates: Seq<CertificateModel>,
}

impl ExecutorModel {
    /// What leaves when the slice is released: its certificates in execution order.
    pub open spec fn release(self, id: u64) -> ReleaseModel {
        let slice = self.slices[id];
        ReleaseModel {
            slice_id: id,
            max_round: slice.max_round,
            seal_horizon: slice.seal_horizon,
            sealed: slice.sealed->0,
            certificates: slice.sealed->0.order.map_values(|d: Digest| self.certificates[d]),
        }
    }

    /// Whether exactly the slices that can be released leave, in the order of their numbers.
    pub open spec fn releases(self, out: Seq<ReleaseModel>) -> bool {
        &&& forall|i: int, j: int|
            0 <= i < j < out.len() ==> (#[trigger] out[i]).slice_id < (#[trigger] out[j]).slice_id
        &&& forall|i: int|
            0 <= i < out.len() ==> self.is_free((#[trigger] out[i]).slice_id) && out[i]
                == self.release(out[i].slice_id)
        &&& forall|id: u64| #[trigger]
            self.is_free(id) ==> exists|i: int| 0 <= i < out.len() && (#[trigger] out[i]).slice_id == id
    }

    /// Whether the commit can be registered: its vertices are new and distinct, and so is its
    /// slice.
    pub open spec fn accepts(self, commit: CommitModel) -> bool {
        &&& commit.members().no_duplicates()
        &&& forall|i: int|
            0 <= i < commit.members().len() ==> !self.owners.contains_key(
                #[trigger] commit.members()[i],
            )
        &&& commit.certificates.len() > 0 ==> !self.slices.contains_key(commit.batch_index)
    }

    /// The executor after the commit is registered and the slices that it completes are sealed.
    pub open spec fn sealed_by(self, commit: CommitModel) -> ExecutorModel {
        let model = registered(self, commit);
        model.with_sealed(model.ready(), commit.batch_index)
    }

    /// Whether this is what leaves on account of the commit: nothing if it is empty, and else
    /// exactly the slices that can be released once all slices that can be sealed are, each in an
    /// order that stands.
    pub open spec fn hands_out(self, commit: CommitModel, out: Seq<ReleaseModel>) -> bool {
        if commit.certificates.len() == 0 {
            out.len() == 0
        } else {
            let start = registered(self, commit);
            &&& self.sealed_by(commit).valid()
            &&& self.sealed_by(commit).releases(out)
            &&& forall|id: u64| #[trigger]
                start.is_ready(id) ==> start.snapshot().stands(start.slices[id].members)
        }
    }

    /// The executor after the commit.
    pub open spec fn next(self, commit: CommitModel) -> ExecutorModel {
        if commit.certificates.len() == 0 {
            self
        } else {
            let left = self.sealed_by(commit).without_free();
            if registered(self, commit).ready() == Set::<u64>::empty() {
                left
            } else {
                left.collected()
            }
        }
    }
}

} // verus!
