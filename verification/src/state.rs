//! The state of the executor: committed certificates, visibility evidence and execution slices.

use vstd::prelude::*;

use crate::ordered::{OrderedMap, OrderedSet};
use crate::types::{Certificate, CertificateModel, Digest, PublicKey, Round};

verus! {

/// Visibility evidence of one vertex: in each round, the creators whose vertices of that round
/// descend from it.
#[derive(Debug)]
pub struct AufState {
    pub round: Round,
    pub seen_by_round: OrderedMap<Round, OrderedSet<PublicKey>>,
}

/// What the evidence of one vertex holds.
#[verifier::ext_equal]
pub struct Evidence {
    pub round: Round,
    pub seen: Map<Round, Set<PublicKey>>,
}

impl View for AufState {
    type V = Evidence;

    open spec fn view(&self) -> Evidence {
        Evidence {
            round: self.round,
            seen: self.seen_by_round@.map_values(|creators: OrderedSet<PublicKey>| creators@),
        }
    }
}

impl AufState {
    /// No evidence yet for a vertex of the round.
    pub fn new(round: Round) -> (state: Self)
        ensures
            state@ == (Evidence { round, seen: Map::<Round, Set<PublicKey>>::empty() }),
    {
        let state = AufState { round, seen_by_round: OrderedMap::new() };
        assert(state@.seen =~= Map::<Round, Set<PublicKey>>::empty());
        state
    }
}

/// What was counted while a slice was ordered.
#[derive(Clone, Copy, Debug, PartialEq, Eq)]
pub struct OrderingMetrics {
    pub eligible_vertex_count: usize,
    pub ineligible_vertex_count: usize,
    pub all_pair_count: usize,
    pub causal_pair_count: usize,
    pub incomparable_pair_count: usize,
    pub eligible_pair_count: usize,
    pub ineligible_pair_count: usize,
    pub edge_count: usize,
    pub conflict_count: usize,
    pub no_signal_count: usize,
    pub intra_scc_ordering_edge_count: usize,
    pub inter_scc_ordering_edge_count: usize,
    pub constrained_pair_count: usize,
    pub scc_count: usize,
    pub nontrivial_scc_count: usize,
    pub vertices_in_nontrivial_sccs: usize,
    pub max_scc_size: usize,
    pub incomparable_pair_inversion_count: usize,
    pub constrained_inversion_count: usize,
    pub unconstrained_inversion_count: usize,
    pub moved_vertex_count: usize,
    pub unchanged_slice: bool,
    /// Displacements are counted in positions; this is the largest possible one.
    pub position_displacement_denominator: usize,
    /// The lower and the upper middle displacement; their mean is the median.
    pub position_displacement_median_low: usize,
    pub position_displacement_median_high: usize,
    pub position_displacement_p95: usize,
}

impl Default for OrderingMetrics {
    fn default() -> (metrics: Self)
        ensures
            metrics == OrderingMetrics::none(),
    {
        OrderingMetrics {
            eligible_vertex_count: 0,
            ineligible_vertex_count: 0,
            all_pair_count: 0,
            causal_pair_count: 0,
            incomparable_pair_count: 0,
            eligible_pair_count: 0,
            ineligible_pair_count: 0,
            edge_count: 0,
            conflict_count: 0,
            no_signal_count: 0,
            intra_scc_ordering_edge_count: 0,
            inter_scc_ordering_edge_count: 0,
            constrained_pair_count: 0,
            scc_count: 0,
            nontrivial_scc_count: 0,
            vertices_in_nontrivial_sccs: 0,
            max_scc_size: 0,
            incomparable_pair_inversion_count: 0,
            constrained_inversion_count: 0,
            unconstrained_inversion_count: 0,
            moved_vertex_count: 0,
            unchanged_slice: false,
            position_displacement_denominator: 0,
            position_displacement_median_low: 0,
            position_displacement_median_high: 0,
            position_displacement_p95: 0,
        }
    }
}

impl OrderingMetrics {
    /// Nothing counted.
    pub open spec fn none() -> OrderingMetrics {
        OrderingMetrics {
            eligible_vertex_count: 0,
            ineligible_vertex_count: 0,
            all_pair_count: 0,
            causal_pair_count: 0,
            incomparable_pair_count: 0,
            eligible_pair_count: 0,
            ineligible_pair_count: 0,
            edge_count: 0,
            conflict_count: 0,
            no_signal_count: 0,
            intra_scc_ordering_edge_count: 0,
            inter_scc_ordering_edge_count: 0,
            constrained_pair_count: 0,
            scc_count: 0,
            nontrivial_scc_count: 0,
            vertices_in_nontrivial_sccs: 0,
            max_scc_size: 0,
            incomparable_pair_inversion_count: 0,
            constrained_inversion_count: 0,
            unconstrained_inversion_count: 0,
            moved_vertex_count: 0,
            unchanged_slice: false,
            position_displacement_denominator: 0,
            position_displacement_median_low: 0,
            position_displacement_median_high: 0,
            position_displacement_p95: 0,
        }
    }
}

/// What was recorded when a slice was sealed.
#[derive(Clone, Copy, Debug, PartialEq, Eq)]
pub struct SealedMetrics {
    pub ordering: OrderingMetrics,
    pub snapshot_round: Round,
    pub trigger_slice_id: u64,
    pub trigger_export_prefix_digest: Digest,
    pub execution_order_digest: Digest,
}

/// The final outputs of a slice. They are fixed at sealing.
#[derive(Debug)]
pub struct SealedSlice {
    pub ordered_sccs: Vec<Vec<Digest>>,
    pub order: Vec<Digest>,
    pub metrics: SealedMetrics,
}

/// An execution slice between registration and release.
#[derive(Debug)]
pub struct SliceState {
    /// The native execution order; empty once the slice is sealed.
    pub members: Vec<Digest>,
    pub max_round: Round,
    pub seal_horizon: Round,
    pub sealed: Option<SealedSlice>,
}

/// The post-consensus ordering layer.
#[derive(Debug)]
pub struct MrvExecutor {
    /// Certificates for active ancestry queries and for sealed outputs awaiting release.
    pub store: OrderedMap<Digest, Certificate>,
    /// Evidence of the vertices of unsealed slices.
    pub auf_states: OrderedMap<Digest, AufState>,
    pub slices: OrderedMap<u64, SliceState>,
    /// The lowest round of a vertex with evidence.
    pub active_floor_round: Option<Round>,
    /// The highest round of the committed prefix.
    pub frontier_round: Round,
    pub mrv_window: Round,
    /// How many creators make a vertex eligible.
    pub reach_threshold: usize,
    /// How large a one-sided visibility difference crosses.
    pub delta_threshold: i64,
    /// The slice of every vertex ever registered.
    pub seen_slice_members: OrderedMap<Digest, u64>,
    pub cumulative_member_count: u64,
    pub export_prefix_digest: Digest,
}

impl MrvExecutor {
    /// The certificates of the store.
    pub open spec fn certificates(self) -> Map<Digest, CertificateModel> {
        self.store@.map_values(|certificate: Certificate| certificate@)
    }

    /// The evidence of the active vertices.
    pub open spec fn evidence(self) -> Map<Digest, Evidence> {
        self.auf_states@.map_values(|state: AufState| state@)
    }

    /// Whether the executor has just been set up for a committee of the size.
    pub open spec fn is_new(self, committee_size: usize, mrv_window: Round) -> bool {
        let n: int = if committee_size == 0 {
            1
        } else {
            committee_size as int
        };
        let f = (n - 1) / 3;
        &&& self.store@ == Map::<Digest, Certificate>::empty()
        &&& self.auf_states@ == Map::<Digest, AufState>::empty()
        &&& self.slices@ == Map::<u64, SliceState>::empty()
        &&& self.active_floor_round is None
        &&& self.frontier_round == 0
        &&& self.mrv_window == mrv_window
        &&& self.reach_threshold == 2 * f + 1
        &&& self.delta_threshold == f + 1
        &&& self.seen_slice_members@ == Map::<Digest, u64>::empty()
        &&& self.cumulative_member_count == 0
        &&& self.export_prefix_digest.0@ == Seq::new(32, |i: int| 0u8)
    }

    /// An executor for a committee of `committee_size`, of which at most a third is faulty: with
    /// `f = (committee_size - 1) / 3` a vertex is eligible once `2f + 1` creators have seen it,
    /// and a difference of `f + 1` creators crosses.
    pub fn new(committee_size: usize, mrv_window: Round) -> (executor: Self)
        requires
            mrv_window > 0,
        ensures
            executor.is_new(committee_size, mrv_window),
            executor@.settled(),
    {
        let n: usize = if committee_size < 1 {
            1
        } else {
            committee_size
        };
        let f: usize = n.saturating_sub(1) / 3;
        let executor = MrvExecutor {
            store: OrderedMap::new(),
            auf_states: OrderedMap::new(),
            slices: OrderedMap::new(),
            active_floor_round: None,
            frontier_round: 0,
            mrv_window,
            reach_threshold: 2 * f + 1,
            delta_threshold: (f + 1) as i64,
            seen_slice_members: OrderedMap::new(),
            cumulative_member_count: 0,
            export_prefix_digest: Digest::zero(),
        };
        assert(executor@.owners.len() == 0);
        executor
    }
}

} // verus!
