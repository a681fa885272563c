use std::cmp::Ordering;

use mrv_executor::ordered::{OrderedMap, OrderedSet};
use mrv_executor::state::{AufState, MrvExecutor, OrderingMetrics};
use mrv_executor::types::{Certificate, Digest, PublicKey, Round};
use mrv_executor::visibility::PairVerdict;
use rand::rngs::StdRng;
use rand::seq::SliceRandom;
use rand::{Rng, SeedableRng};

fn public_key(value: u8) -> PublicKey {
    PublicKey([value; 32])
}

fn raw_digest(value: u8) -> Digest {
    Digest([value; 32])
}

fn certificate(id: u8, round: Round, author: u8, parents: Vec<Digest>) -> Certificate {
    let mut bytes = [id; 32];
    bytes[1] = round as u8;
    bytes[2] = author;
    Certificate {
        digest: Digest(bytes),
        round,
        origin: public_key(author),
        parents,
    }
}

fn test_executor(committee_size: usize, mrv_window: Round) -> MrvExecutor {
    MrvExecutor::new(committee_size, mrv_window)
}

fn insert_target(executor: &mut MrvExecutor, certificate: Certificate) -> Digest {
    let digest = certificate.digest;
    let round = certificate.round;
    executor.store.insert(digest, certificate);
    executor.auf_states.insert(digest, AufState::new(round));
    executor.note_active_round(round);
    digest
}

fn set_seen_count(executor: &mut MrvExecutor, digest: &Digest, round: Round, count: usize) {
    let mut creators = OrderedSet::new();
    for index in 0..count {
        creators.insert(public_key(index as u8 + 1));
    }
    executor
        .auf_states
        .get_mut(digest)
        .expect("test target must exist")
        .seen_by_round
        .insert(round, creators);
}

fn clear_seen(executor: &mut MrvExecutor, digests: &[&Digest]) {
    for digest in digests {
        executor
            .auf_states
            .get_mut(digest)
            .expect("test target must exist")
            .seen_by_round = OrderedMap::new();
    }
}

fn graph_of(nodes: &[Digest], edges: &[(Digest, Digest)]) -> OrderedMap<Digest, OrderedSet<Digest>> {
    let mut graph = OrderedMap::new();
    for node in nodes {
        graph.insert(*node, OrderedSet::new());
    }
    for (from, to) in edges {
        graph.get_mut(from).unwrap().insert(*to);
    }
    graph
}

fn number_graph(count: usize, edges: &[(usize, usize)]) -> OrderedMap<usize, OrderedSet<usize>> {
    let mut graph = OrderedMap::new();
    for node in 0..count {
        graph.insert(node, OrderedSet::new());
    }
    for (from, to) in edges {
        graph.get_mut(from).unwrap().insert(*to);
    }
    graph
}

#[test]
fn controlled_visibility_experiment() {
    const TRIALS: u64 = 100;
    const TARGET_ROUND: Round = 5;
    const FIRST_WINDOW_ROUND: Round = TARGET_ROUND + 1;

    for scenario in ["one_sided", "symmetric", "reversing", "byzantine_only"] {
        let mut expected_edge_count = 0;
        let mut wrong_edge_count = 0;
        let mut no_signal_count = 0;
        let mut conflict_count = 0;
        let mut strict_final_order_count = 0;
        let mut opposite_final_order_count = 0;
        let mut key_opposed_count = 0;
        let mut base_opposed_count = 0;

        for seed in 0..TRIALS {
            let mut rng = StdRng::seed_from_u64(seed);
            let mut creators = [1u8, 2, 3, 4];
            creators.shuffle(&mut rng);
            let mut executor = test_executor(4, 4);

            let a = insert_target(
                &mut executor,
                certificate(rng.gen(), TARGET_ROUND, creators[0], vec![]),
            );
            let b = insert_target(
                &mut executor,
                certificate(rng.gen(), TARGET_ROUND, creators[1], vec![]),
            );
            let decoy = insert_target(
                &mut executor,
                certificate(rng.gen(), TARGET_ROUND, creators[2], vec![]),
            );

            let a_is_key_first = executor.tie_break(&a, &b) == Ordering::Less;
            let favor_a = if seed % 2 == 0 {
                a_is_key_first
            } else {
                !a_is_key_first
            };
            if scenario == "one_sided" && favor_a != a_is_key_first {
                key_opposed_count += 1;
            }
            let (favored, other) = if favor_a { (&a, &b) } else { (&b, &a) };

            let mut neutral = Vec::new();
            for &creator in &creators {
                let background = certificate(rng.gen(), TARGET_ROUND - 1, creator, vec![]);
                let digest = background.digest;
                executor.store.insert(digest, background);
                neutral.push(digest);
            }

            for round in FIRST_WINDOW_ROUND..=TARGET_ROUND + executor.mrv_window {
                for (creator_index, &creator) in creators.iter().enumerate() {
                    let (see_favored, see_other) = match scenario {
                        // Correct creators favor one endpoint; the faulty creator favors the
                        // other. Later rounds make both eligible without undoing the first
                        // crossing.
                        "one_sided" if round == FIRST_WINDOW_ROUND => {
                            (creator_index < 3, creator_index == 3)
                        }
                        // Crossings in both directions within the window.
                        "reversing" if round == FIRST_WINDOW_ROUND => {
                            (creator_index < 3, creator_index == 3)
                        }
                        "reversing" if round == FIRST_WINDOW_ROUND + 1 => {
                            (creator_index == 3, creator_index < 3)
                        }
                        // The three correct creators see both endpoints; only the one faulty
                        // creator contributes net bias.
                        "byzantine_only" => (true, creator_index < 3),
                        _ => (true, true),
                    };
                    let mut parents = vec![*neutral.choose(&mut rng).unwrap()];
                    if see_favored {
                        parents.push(*favored);
                    }
                    if see_other {
                        parents.push(*other);
                    }
                    let observer = certificate(rng.gen(), round, creator, parents);
                    let digest = observer.digest;
                    let author = observer.origin;
                    executor.frontier_round = executor.frontier_round.max(round);
                    executor.store.insert(digest, observer);
                    executor.update_seen_for_new_certificate(round, author, &digest);
                }
            }

            let eligible_a = executor.is_eligible(&a);
            let eligible_b = executor.is_eligible(&b);
            assert!(
                eligible_a && eligible_b,
                "controlled scenario must keep both endpoints eligible: scenario={} seed={}",
                scenario,
                seed
            );
            let verdict = executor.compare_incomparable_pair(&a, &b, eligible_a, eligible_b);
            let expected_verdict = if favor_a {
                PairVerdict::EdgeAToB
            } else {
                PairVerdict::EdgeBToA
            };

            match verdict {
                PairVerdict::EdgeAToB | PairVerdict::EdgeBToA => {
                    if scenario == "one_sided" && verdict == expected_verdict {
                        expected_edge_count += 1;
                    } else {
                        wrong_edge_count += 1;
                    }
                }
                PairVerdict::NoSignal => no_signal_count += 1,
                PairVerdict::Conflict => conflict_count += 1,
                PairVerdict::Ineligible => unreachable!("eligibility was checked above"),
            }

            let base_opposed = seed % 4 < 2;
            let members = if base_opposed {
                if scenario == "one_sided" {
                    base_opposed_count += 1;
                }
                vec![*other, decoy, *favored]
            } else {
                vec![*favored, decoy, *other]
            };
            let ordering = executor.order_slice(&members);
            let favored_component = ordering
                .ordered_sccs
                .iter()
                .position(|component| component.contains(favored))
                .unwrap();
            let other_component = ordering
                .ordered_sccs
                .iter()
                .position(|component| component.contains(other))
                .unwrap();
            let favored_position = ordering.order.iter().position(|x| x == favored).unwrap();
            let other_position = ordering.order.iter().position(|x| x == other).unwrap();

            if scenario == "one_sided"
                && favored_component < other_component
                && favored_position < other_position
            {
                strict_final_order_count += 1;
            }
            if scenario == "one_sided" && favored_position > other_position {
                opposite_final_order_count += 1;
            }
        }

        assert_eq!(
            expected_edge_count + wrong_edge_count + no_signal_count + conflict_count,
            TRIALS as usize
        );
        match scenario {
            "one_sided" => {
                assert_eq!(expected_edge_count, TRIALS as usize);
                assert_eq!(strict_final_order_count, TRIALS as usize);
                assert_eq!(opposite_final_order_count, 0);
                assert_eq!(key_opposed_count, (TRIALS / 2) as usize);
                assert_eq!(base_opposed_count, (TRIALS / 2) as usize);
            }
            "symmetric" | "byzantine_only" => {
                assert_eq!(no_signal_count, TRIALS as usize);
            }
            "reversing" => assert_eq!(conflict_count, TRIALS as usize),
            _ => unreachable!(),
        }
        assert_eq!(wrong_edge_count, 0);

        println!(
            "MRV_ControlledVisibilityStats scenario={} trials={} expected_edge_count={} wrong_edge_count={} no_signal_count={} conflict_count={} strict_final_order_count={} opposite_final_order_count={} key_opposed_count={} base_opposed_count={}",
            scenario,
            TRIALS,
            expected_edge_count,
            wrong_edge_count,
            no_signal_count,
            conflict_count,
            strict_final_order_count,
            opposite_final_order_count,
            key_opposed_count,
            base_opposed_count,
        );
    }
}

#[test]
fn eligibility_uses_the_full_fixed_interval() {
    let mut executor = test_executor(4, 3);
    let target = insert_target(&mut executor, certificate(1, 5, 1, vec![]));
    set_seen_count(&mut executor, &target, 8, 3);
    set_seen_count(&mut executor, &target, 9, 4);

    assert!(executor.is_eligible(&target));
    executor
        .auf_states
        .get_mut(&target)
        .unwrap()
        .seen_by_round
        .remove(&8);
    assert!(!executor.is_eligible(&target));
}

#[test]
fn comparison_window_starts_after_coexistence_round() {
    let mut executor = test_executor(4, 3);
    let a = insert_target(&mut executor, certificate(1, 5, 1, vec![]));
    let b = insert_target(&mut executor, certificate(2, 5, 2, vec![]));
    set_seen_count(&mut executor, &a, 5, 3);

    assert_eq!(
        executor.compare_incomparable_pair(&a, &b, true, true),
        PairVerdict::NoSignal
    );
}

#[test]
fn fixed_window_does_not_stop_after_first_crossing() {
    let mut executor = test_executor(4, 3);
    let a = insert_target(&mut executor, certificate(1, 5, 1, vec![]));
    let b = insert_target(&mut executor, certificate(2, 5, 2, vec![]));
    set_seen_count(&mut executor, &a, 6, 3);
    set_seen_count(&mut executor, &b, 8, 3);

    assert_eq!(
        executor.compare_incomparable_pair(&a, &b, true, true),
        PairVerdict::Conflict
    );
}

#[test]
fn pair_verdicts_cover_ineligible_edges_conflict_and_no_signal() {
    let mut executor = test_executor(4, 3);
    let a = insert_target(&mut executor, certificate(1, 5, 1, vec![]));
    let b = insert_target(&mut executor, certificate(2, 5, 2, vec![]));

    assert_eq!(
        executor.compare_incomparable_pair(&a, &b, false, true),
        PairVerdict::Ineligible
    );
    assert_eq!(
        executor.compare_incomparable_pair(&a, &b, true, true),
        PairVerdict::NoSignal
    );

    set_seen_count(&mut executor, &a, 6, 3);
    assert_eq!(
        executor.compare_incomparable_pair(&a, &b, true, true),
        PairVerdict::EdgeAToB
    );

    clear_seen(&mut executor, &[&a, &b]);
    set_seen_count(&mut executor, &b, 6, 3);
    assert_eq!(
        executor.compare_incomparable_pair(&a, &b, true, true),
        PairVerdict::EdgeBToA
    );

    set_seen_count(&mut executor, &a, 7, 3);
    assert_eq!(
        executor.compare_incomparable_pair(&a, &b, true, true),
        PairVerdict::Conflict
    );
}

#[test]
fn comparison_window_ends_with_the_window() {
    let mut executor = test_executor(4, 3);
    let a = insert_target(&mut executor, certificate(1, 5, 1, vec![]));
    let b = insert_target(&mut executor, certificate(2, 5, 2, vec![]));
    set_seen_count(&mut executor, &a, 9, 3);
    assert_eq!(
        executor.compare_incomparable_pair(&a, &b, true, true),
        PairVerdict::NoSignal
    );
    set_seen_count(&mut executor, &a, 8, 1);
    assert_eq!(
        executor.compare_incomparable_pair(&a, &b, true, true),
        PairVerdict::NoSignal
    );
    set_seen_count(&mut executor, &a, 8, 2);
    assert_eq!(
        executor.compare_incomparable_pair(&a, &b, true, true),
        PairVerdict::EdgeAToB
    );
}

#[test]
fn pair_without_evidence_is_ineligible() {
    let mut executor = test_executor(4, 3);
    let a = insert_target(&mut executor, certificate(1, 5, 1, vec![]));
    let unknown = raw_digest(9);
    assert!(!executor.is_eligible(&unknown));
    assert_eq!(executor.seen_count_at(&unknown, 6), 0);
    assert_eq!(
        executor.compare_incomparable_pair(&a, &unknown, true, true),
        PairVerdict::Ineligible
    );
}

#[test]
fn causal_edge_has_the_hard_direction_even_when_ineligible() {
    let mut executor = test_executor(4, 2);
    let ancestor_certificate = certificate(1, 2, 1, vec![]);
    let ancestor = ancestor_certificate.digest;
    let descendant_certificate = certificate(2, 3, 2, vec![ancestor]);
    let descendant = descendant_certificate.digest;
    insert_target(&mut executor, ancestor_certificate);
    insert_target(&mut executor, descendant_certificate);

    assert!(!executor.is_eligible(&ancestor));
    assert!(!executor.is_eligible(&descendant));
    assert_eq!(
        executor.causal_edge(&descendant, &ancestor),
        Some((ancestor, descendant))
    );

    let ordered = executor.order_slice(&[descendant, ancestor]);
    assert_eq!(ordered.order, vec![ancestor, descendant]);
    assert_eq!(ordered.metrics.causal_pair_count, 1);
    assert_eq!(ordered.metrics.incomparable_pair_count, 0);
}

#[test]
fn same_round_vertices_skip_impossible_ancestry() {
    let mut executor = test_executor(4, 2);
    let a_certificate = certificate(1, 2, 1, vec![]);
    let a = a_certificate.digest;
    let b_certificate = certificate(2, 2, 2, vec![a]);
    let b = b_certificate.digest;
    insert_target(&mut executor, a_certificate);
    insert_target(&mut executor, b_certificate);

    assert_eq!(executor.causal_edge(&a, &b), None);
}

#[test]
#[should_panic(
    expected = "left slice member certificate missing from MRV store during causal comparison"
)]
fn causal_comparison_rejects_a_missing_slice_member() {
    let executor = test_executor(4, 2);
    executor.causal_edge(&raw_digest(1), &raw_digest(2));
}

#[test]
#[should_panic(
    expected = "left slice member certificate missing from MRV store during deterministic tie-breaking"
)]
fn tie_break_rejects_a_missing_slice_member() {
    let executor = test_executor(4, 2);
    executor.tie_break(&raw_digest(1), &raw_digest(2));
}

#[test]
fn ancestry_is_found_over_several_steps() {
    let mut executor = test_executor(4, 2);
    let a = insert_target(&mut executor, certificate(1, 1, 1, vec![]));
    let b = insert_target(&mut executor, certificate(2, 2, 2, vec![a]));
    let c = insert_target(&mut executor, certificate(3, 3, 3, vec![b]));
    let d = insert_target(&mut executor, certificate(4, 3, 4, vec![]));

    assert_eq!(executor.causal_edge(&a, &c), Some((a, c)));
    assert!(executor.is_ancestor(&a, &c, 1));
    assert!(!executor.is_ancestor(&a, &d, 1));
    assert_eq!(executor.causal_edge(&a, &d), None);
}

#[test]
fn ordering_edge_cycle_is_one_scc() {
    let mut executor = test_executor(4, 2);
    let a = insert_target(&mut executor, certificate(1, 1, 1, vec![]));
    let b = insert_target(&mut executor, certificate(2, 1, 2, vec![]));
    let c = insert_target(&mut executor, certificate(3, 1, 3, vec![]));
    let nodes = vec![a, b, c];
    let graph = graph_of(&nodes, &[(a, b), (b, c), (c, a)]);

    let linearization = executor.linearize_graph(&nodes, &graph, &[]);
    assert_eq!(linearization.ordered_sccs.len(), 1);
    let mut expected = nodes;
    expected.sort_by(|left, right| executor.tie_break(left, right));
    assert_eq!(linearization.order, expected);
}

#[test]
fn scc_internal_order_uses_causal_topological_sort() {
    let mut executor = test_executor(4, 2);
    let low_key = insert_target(&mut executor, certificate(1, 1, 1, vec![]));
    let causal_first = insert_target(&mut executor, certificate(2, 2, 2, vec![]));
    let third = insert_target(&mut executor, certificate(3, 3, 3, vec![]));
    let nodes = vec![low_key, causal_first, third];
    let graph = graph_of(
        &nodes,
        &[
            (causal_first, low_key),
            (low_key, third),
            (third, causal_first),
        ],
    );
    let causal_edges = [(causal_first, low_key)];

    let linearization = executor.linearize_graph(&nodes, &graph, &causal_edges);
    let first_position = linearization
        .order
        .iter()
        .position(|digest| digest == &causal_first)
        .unwrap();
    let low_position = linearization
        .order
        .iter()
        .position(|digest| digest == &low_key)
        .unwrap();
    assert!(first_position < low_position);
    assert_eq!(linearization.order, vec![causal_first, low_key, third]);
}

#[test]
fn zero_indegree_sccs_and_vertices_use_fixed_keys() {
    let mut executor = test_executor(4, 2);
    let late = insert_target(&mut executor, certificate(3, 3, 3, vec![]));
    let early_b = insert_target(&mut executor, certificate(2, 1, 2, vec![]));
    let early_a = insert_target(&mut executor, certificate(1, 1, 1, vec![]));
    let nodes = vec![late, early_b, early_a];
    let graph = graph_of(&nodes, &[]);

    let linearization = executor.linearize_graph(&nodes, &graph, &[]);
    let mut expected = nodes;
    expected.sort_by(|left, right| executor.tie_break(left, right));
    assert_eq!(linearization.order, expected);
    assert_eq!(linearization.ordered_sccs.len(), 3);
}

#[test]
fn nontrivial_scc_uses_its_minimum_member_key() {
    let mut executor = test_executor(4, 2);
    let low = insert_target(&mut executor, certificate(1, 1, 1, vec![]));
    let high = insert_target(&mut executor, certificate(3, 3, 3, vec![]));
    let middle = insert_target(&mut executor, certificate(2, 2, 2, vec![]));
    let nodes = vec![middle, high, low];
    let graph = graph_of(&nodes, &[(low, high), (high, low)]);

    let linearization = executor.linearize_graph(&nodes, &graph, &[]);

    assert_eq!(linearization.ordered_sccs[0], vec![low, high]);
    assert_eq!(linearization.ordered_sccs[1], vec![middle]);
}

#[test]
fn constrained_pairs_exclude_same_scc_and_include_direct_and_transitive_paths() {
    let a = raw_digest(1);
    let b = raw_digest(2);
    let c = raw_digest(3);
    let d = raw_digest(4);
    let e = raw_digest(5);
    let mut node_to_component = OrderedMap::new();
    node_to_component.insert(a, 0);
    node_to_component.insert(b, 0);
    node_to_component.insert(c, 1);
    node_to_component.insert(d, 2);
    node_to_component.insert(e, 3);
    let component_graph = number_graph(4, &[(0, 1), (1, 2)]);
    let incomparable_pairs = vec![(a, b), (a, d), (c, d), (c, e)];
    let reachability = MrvExecutor::component_reachability(4, &component_graph);

    assert_eq!(
        MrvExecutor::count_constrained_pairs(
            &incomparable_pairs,
            &node_to_component,
            &reachability,
        ),
        2
    );
    assert!(MrvExecutor::pair_is_constrained(&d, &a, &node_to_component, &reachability));
    assert!(!MrvExecutor::pair_is_constrained(&a, &b, &node_to_component, &reachability));
}

#[test]
fn intervention_metrics_compare_the_exporter_sequence() {
    let executor = test_executor(4, 2);
    let a = raw_digest(1);
    let b = raw_digest(2);
    let c = raw_digest(3);
    let d = raw_digest(4);
    let base = vec![a, b, c, d];
    let mrv = vec![b, a, d, c];
    let incomparable_pairs = vec![(a, b), (c, d)];
    let mut node_to_component = OrderedMap::new();
    node_to_component.insert(a, 0);
    node_to_component.insert(b, 1);
    node_to_component.insert(c, 2);
    node_to_component.insert(d, 3);
    let component_graph = number_graph(4, &[(1, 0)]);
    let reachability = MrvExecutor::component_reachability(4, &component_graph);
    let mut metrics = OrderingMetrics::default();

    executor.collect_intervention_metrics(
        &base,
        &mrv,
        &incomparable_pairs,
        &node_to_component,
        &reachability,
        &mut metrics,
    );

    assert_eq!(metrics.incomparable_pair_inversion_count, 2);
    assert_eq!(metrics.constrained_inversion_count, 1);
    assert_eq!(metrics.unconstrained_inversion_count, 1);
    assert_eq!(metrics.moved_vertex_count, 4);
    assert!(!metrics.unchanged_slice);
    let denominator = metrics.position_displacement_denominator as f64;
    let median = (metrics.position_displacement_median_low as f64 / denominator
        + metrics.position_displacement_median_high as f64 / denominator)
        / 2.0;
    assert_eq!(median, 1.0 / 3.0);
    assert_eq!(metrics.position_displacement_p95 as f64 / denominator, 1.0 / 3.0);
}

#[test]
fn displacements_of_a_reversed_sequence() {
    let executor = test_executor(4, 2);
    let base: Vec<Digest> = (1..=5).map(raw_digest).collect();
    let mut mrv = base.clone();
    mrv.reverse();
    let mut metrics = OrderingMetrics::default();
    executor.collect_intervention_metrics(
        &base,
        &mrv,
        &[],
        &OrderedMap::new(),
        &[],
        &mut metrics,
    );
    // The displacements are 4, 2, 0, 2 and 4 of at most 4.
    assert_eq!(metrics.moved_vertex_count, 4);
    assert_eq!(metrics.position_displacement_denominator, 4);
    assert_eq!(metrics.position_displacement_median_low, 2);
    assert_eq!(metrics.position_displacement_median_high, 2);
    assert_eq!(metrics.position_displacement_p95, 4);

    executor.collect_intervention_metrics(
        &base,
        &base,
        &[],
        &OrderedMap::new(),
        &[],
        &mut metrics,
    );
    assert_eq!(metrics.moved_vertex_count, 0);
    assert!(metrics.unchanged_slice);
    assert_eq!(metrics.position_displacement_p95, 0);
}

#[test]
fn percentiles_agree_with_floating_point() {
    let executor = test_executor(4, 2);
    for count in [1usize, 2, 3, 19, 20, 21, 39, 40, 41, 60, 99, 100, 101, 180] {
        let base: Vec<Digest> = (0..count).map(|i| raw_digest(i as u8)).collect();
        let mut mrv = base.clone();
        mrv.rotate_left(count / 3);
        mrv[..count / 2].reverse();
        let mut metrics = OrderingMetrics::default();
        executor.collect_intervention_metrics(&base, &mrv, &[], &OrderedMap::new(), &[], &mut metrics);

        let denominator = count.saturating_sub(1).max(1) as f64;
        let mut displacements: Vec<f64> = base
            .iter()
            .enumerate()
            .map(|(from, digest)| {
                let to = mrv.iter().position(|x| x == digest).unwrap();
                from.abs_diff(to) as f64 / denominator
            })
            .collect();
        displacements.sort_by(|a, b| a.partial_cmp(b).unwrap());
        let middle = count / 2;
        let median = if count % 2 == 0 {
            (displacements[middle - 1] + displacements[middle]) / 2.0
        } else {
            displacements[middle]
        };
        let p95_index = ((count as f64 * 0.95).ceil() as usize)
            .saturating_sub(1)
            .min(count - 1);

        assert_eq!(metrics.position_displacement_denominator as f64, denominator);
        let low = metrics.position_displacement_median_low as f64 / denominator;
        let high = metrics.position_displacement_median_high as f64 / denominator;
        assert_eq!((low + high) / 2.0, median);
        let p95 = metrics.position_displacement_p95 as f64 / denominator;
        assert_eq!(p95, displacements[p95_index]);
    }
}

#[test]
fn fixed_key_compares_round_then_creator_then_digest() {
    let mut executor = test_executor(4, 2);
    let late = insert_target(&mut executor, certificate(1, 3, 1, vec![]));
    let early = insert_target(&mut executor, certificate(9, 2, 9, vec![]));
    let same_round = insert_target(&mut executor, certificate(0, 2, 10, vec![]));
    let same_creator = insert_target(&mut executor, certificate(10, 2, 9, vec![]));
    assert_eq!(executor.tie_break(&early, &late), Ordering::Less);
    assert_eq!(executor.tie_break(&late, &early), Ordering::Greater);
    assert_eq!(executor.tie_break(&early, &same_round), Ordering::Less);
    assert_eq!(executor.tie_break(&early, &same_creator), Ordering::Less);
    assert_eq!(executor.tie_break(&early, &early), Ordering::Equal);
    assert_eq!(
        executor.sort_by_key(&[late, same_round, same_creator, early]),
        vec![early, same_creator, same_round, late]
    );
}

/// Three vertices of one round: visibility puts the third before the first, and the second is
/// ineligible.
fn slice_with_one_edge(executor: &mut MrvExecutor) -> (Digest, Digest, Digest) {
    let a = insert_target(executor, certificate(1, 5, 1, vec![]));
    let b = insert_target(executor, certificate(2, 5, 2, vec![]));
    let c = insert_target(executor, certificate(3, 5, 3, vec![]));
    set_seen_count(executor, &c, 6, 3);
    set_seen_count(executor, &a, 7, 3);
    set_seen_count(executor, &c, 7, 3);
    (a, b, c)
}

#[test]
fn order_does_not_depend_on_the_sequence_of_members() {
    let mut executor = test_executor(4, 3);
    let (a, b, c) = slice_with_one_edge(&mut executor);
    for members in [[a, b, c], [a, c, b], [b, a, c], [b, c, a], [c, a, b], [c, b, a]] {
        let ordering = executor.order_slice(&members);
        assert_eq!(ordering.order, vec![b, c, a]);
        assert_eq!(ordering.ordered_sccs, vec![vec![b], vec![c], vec![a]]);
    }
}

#[test]
fn metrics_of_a_slice_add_up() {
    let mut executor = test_executor(4, 3);
    let (a, b, c) = slice_with_one_edge(&mut executor);
    let metrics = executor.order_slice(&[a, b, c]).metrics;
    assert_eq!(metrics.eligible_vertex_count, 2);
    assert_eq!(metrics.ineligible_vertex_count, 1);
    assert_eq!(metrics.all_pair_count, 3);
    assert_eq!(metrics.causal_pair_count, 0);
    assert_eq!(metrics.incomparable_pair_count, 3);
    assert_eq!(metrics.eligible_pair_count, 1);
    assert_eq!(metrics.ineligible_pair_count, 2);
    assert_eq!(metrics.edge_count, 1);
    assert_eq!(metrics.conflict_count, 0);
    assert_eq!(metrics.no_signal_count, 0);
    assert_eq!(metrics.intra_scc_ordering_edge_count, 0);
    assert_eq!(metrics.inter_scc_ordering_edge_count, 1);
    assert_eq!(metrics.constrained_pair_count, 1);
    assert_eq!(metrics.scc_count, 3);
    assert_eq!(metrics.nontrivial_scc_count, 0);
    assert_eq!(metrics.vertices_in_nontrivial_sccs, 0);
    assert_eq!(metrics.max_scc_size, 1);
    // The order is b, c, a: both pairs with a are turned around.
    assert_eq!(metrics.incomparable_pair_inversion_count, 2);
    assert_eq!(metrics.constrained_inversion_count, 1);
    assert_eq!(metrics.unconstrained_inversion_count, 1);
    assert_eq!(metrics.moved_vertex_count, 3);
    assert_eq!(metrics.position_displacement_denominator, 2);
    assert_eq!(metrics.position_displacement_median_low, 1);
    assert_eq!(metrics.position_displacement_median_high, 1);
    assert_eq!(metrics.position_displacement_p95, 2);
}

#[test]
fn cycle_with_a_causal_edge_keeps_the_causal_order() {
    let mut executor = test_executor(4, 3);
    let a = insert_target(&mut executor, certificate(1, 5, 1, vec![]));
    let b = insert_target(&mut executor, certificate(2, 6, 2, vec![a]));
    let c = insert_target(&mut executor, certificate(3, 6, 3, vec![]));
    // Visibility puts b before c and c before a, while a causally precedes b.
    set_seen_count(&mut executor, &a, 5, 3);
    set_seen_count(&mut executor, &b, 7, 3);
    set_seen_count(&mut executor, &c, 7, 1);
    set_seen_count(&mut executor, &c, 8, 3);
    set_seen_count(&mut executor, &b, 8, 3);
    set_seen_count(&mut executor, &a, 8, 1);
    let ordering = executor.order_slice(&[c, b, a]);
    assert_eq!(ordering.ordered_sccs, vec![vec![a, b, c]]);
    assert_eq!(ordering.metrics.causal_pair_count, 1);
    assert_eq!(ordering.metrics.edge_count, 2);
    assert_eq!(ordering.metrics.intra_scc_ordering_edge_count, 2);
    assert_eq!(ordering.metrics.nontrivial_scc_count, 1);
    assert_eq!(ordering.metrics.vertices_in_nontrivial_sccs, 3);
    assert_eq!(ordering.metrics.max_scc_size, 3);
    assert_eq!(ordering.metrics.constrained_pair_count, 0);
}

#[test]
fn empty_slice_has_an_empty_order() {
    let executor = test_executor(4, 3);
    let ordering = executor.order_slice(&[]);
    assert!(ordering.order.is_empty());
    assert!(ordering.ordered_sccs.is_empty());
    assert_eq!(ordering.metrics.all_pair_count, 0);
    assert!(ordering.metrics.unchanged_slice);
    assert_eq!(ordering.metrics.position_displacement_denominator, 1);
}
