use mrv_executor::executor::{CommitOutcome, CommitViolation, LifecycleReason};
use mrv_executor::fingerprint::{extend_prefix, fingerprint_digests, sort_digests};
use mrv_executor::state::{AufState, MrvExecutor, SliceState};
use mrv_executor::types::{Certificate, CommittedSubDag, Digest, PublicKey, Round};

fn certificate(id: u8, round: Round, author: u8, parents: Vec<Digest>) -> Certificate {
    let mut bytes = [id; 32];
    bytes[1] = round as u8;
    bytes[2] = author;
    Certificate {
        digest: Digest(bytes),
        round,
        origin: PublicKey([author; 32]),
        parents,
    }
}

fn committed_slice(slice_id: u64, certificates: Vec<Certificate>) -> CommittedSubDag {
    let leader = certificates.last().expect("test slice must be nonempty");
    CommittedSubDag {
        batch_index: slice_id,
        leader_round: leader.round,
        leader_digest: leader.digest,
        certificates,
    }
}

fn insert_target(executor: &mut MrvExecutor, certificate: Certificate) -> Digest {
    let digest = certificate.digest;
    let round = certificate.round;
    executor.store.insert(digest, certificate);
    executor.auf_states.insert(digest, AufState::new(round));
    executor.note_active_round(round);
    digest
}

/// Hands a commit to the executor once it is found to be acceptable.
fn commit(executor: &mut MrvExecutor, slice: CommittedSubDag) -> CommitOutcome {
    match executor.check_commit(&slice) {
        Ok(()) => {}
        Err(CommitViolation::DuplicateMember { .. }) => {
            panic!("MRV exact-once membership invariant violated")
        }
        Err(CommitViolation::DuplicateSlice { .. }) => panic!("slice ids must be unique"),
    }
    let outcome = executor.on_committed_slice(slice);
    assert!(executor.assert_member_lifecycle().is_ok());
    outcome
}

/// The digests of the certificates that leave, in their order.
fn output(outcome: &CommitOutcome) -> Vec<Digest> {
    let mut digests = Vec::new();
    for slice in &outcome.released {
        for certificate in &slice.certificates {
            digests.push(certificate.digest);
        }
    }
    digests
}

#[test]
#[should_panic(expected = "MRV exact-once membership invariant violated")]
fn duplicate_slice_membership_fails_immediately() {
    let mut executor = MrvExecutor::new(1, 2);
    let member = certificate(1, 1, 1, vec![]);
    commit(&mut executor, committed_slice(1, vec![member.clone()]));
    commit(&mut executor, committed_slice(2, vec![member]));
}

#[test]
fn duplicate_member_is_named() {
    let mut executor = MrvExecutor::new(1, 2);
    let member = certificate(1, 1, 1, vec![]);
    commit(&mut executor, committed_slice(1, vec![member.clone()]));
    let again = committed_slice(2, vec![certificate(2, 1, 2, vec![]), member.clone()]);
    assert_eq!(
        executor.check_commit(&again),
        Err(CommitViolation::DuplicateMember {
            first_slice_id: 1,
            duplicate_slice_id: 2,
            member: member.digest,
            member_round: 1,
            member_creator: PublicKey([1; 32]),
        })
    );
    let twice = committed_slice(
        3,
        vec![certificate(4, 1, 4, vec![]), certificate(4, 1, 4, vec![])],
    );
    assert_eq!(
        executor.check_commit(&twice),
        Err(CommitViolation::DuplicateMember {
            first_slice_id: 3,
            duplicate_slice_id: 3,
            member: certificate(4, 1, 4, vec![]).digest,
            member_round: 1,
            member_creator: PublicKey([4; 32]),
        })
    );
    assert_eq!(
        executor.check_commit(&committed_slice(1, vec![certificate(5, 1, 5, vec![])])),
        Err(CommitViolation::DuplicateSlice { slice_id: 1 })
    );
}

#[test]
#[should_panic(expected = "MRV unsealed member is missing visibility state")]
fn lifecycle_check_rejects_missing_unsealed_visibility_state() {
    let mut executor = MrvExecutor::new(1, 2);
    let member_certificate = certificate(1, 1, 1, vec![]);
    let member = member_certificate.digest;
    executor.store.insert(member, member_certificate);
    executor.slices.insert(
        1,
        SliceState {
            members: vec![member],
            max_round: 1,
            seal_horizon: 3,
            sealed: None,
        },
    );

    if let Err(violation) = executor.assert_member_lifecycle() {
        assert_eq!(violation.reason, LifecycleReason::MissingUnsealedAufState);
        assert_eq!(violation.reason_name(), "missing_unsealed_auf_state");
        assert_eq!(violation.slice_id, 1);
        assert_eq!(violation.member, member);
        panic!("{}", violation.message());
    }
}

#[test]
fn lifecycle_check_reports_missing_certificates() {
    let mut executor = MrvExecutor::new(1, 2);
    let member = certificate(1, 1, 1, vec![]).digest;
    executor.slices.insert(
        1,
        SliceState {
            members: vec![member],
            max_round: 1,
            seal_horizon: 3,
            sealed: None,
        },
    );
    let violation = executor.assert_member_lifecycle().unwrap_err();
    assert_eq!(violation.reason, LifecycleReason::MissingUnsealedStore);
    assert_eq!(
        violation.message(),
        "MRV unsealed member is missing from the committed store"
    );
    assert_eq!(violation.reason_name(), "missing_unsealed_store");

    let mut blocked = MrvExecutor::new(1, 2);
    commit(&mut blocked, committed_slice(1, vec![certificate(10, 10, 10, vec![])]));
    commit(&mut blocked, committed_slice(2, vec![certificate(1, 1, 1, vec![])]));
    blocked.store.remove(&member);
    let violation = blocked.assert_member_lifecycle().unwrap_err();
    assert_eq!(violation.reason, LifecycleReason::MissingQueuedOutputStore);
    assert_eq!(violation.slice_id, 2);
    assert_eq!(violation.member, member);
    assert_eq!(
        violation.message(),
        "MRV queued output member is missing from the committed store"
    );
    assert_eq!(violation.reason_name(), "missing_queued_output_store");
}

#[test]
fn evidence_is_round_ordered_without_changing_the_base_sequence() {
    let mut executor = MrvExecutor::new(1, 2);
    let target_certificate = certificate(1, 1, 1, vec![]);
    let target = target_certificate.digest;
    let descendant_certificate = certificate(2, 2, 2, vec![target]);
    let descendant = descendant_certificate.digest;

    commit(
        &mut executor,
        committed_slice(1, vec![descendant_certificate, target_certificate]),
    );

    assert_eq!(executor.seen_count_at(&target, 2), 1);
    assert_eq!(
        executor.slices.get(&1).unwrap().members,
        vec![descendant, target]
    );
}

#[test]
fn store_gc_keeps_active_ancestry_and_drops_old_history() {
    let mut executor = MrvExecutor::new(4, 2);
    let old = certificate(1, 1, 1, vec![]);
    let old_digest = old.digest;
    executor.store.insert(old_digest, old);

    let target = insert_target(&mut executor, certificate(2, 5, 2, vec![]));
    let intermediate = certificate(3, 6, 3, vec![target]);
    let intermediate_digest = intermediate.digest;
    executor.store.insert(intermediate_digest, intermediate);

    executor.garbage_collect_store();

    assert!(!executor.store.contains_key(&old_digest));
    assert!(executor.store.contains_key(&target));
    assert!(executor.store.contains_key(&intermediate_digest));
}

#[test]
fn sealed_slice_is_not_changed_by_later_prefixes() {
    let mut executor = MrvExecutor::new(1, 1);
    let target_certificate = certificate(1, 1, 1, vec![]);
    let target = target_certificate.digest;
    let outcome = commit(&mut executor, committed_slice(1, vec![target_certificate]));
    assert!(outcome.released.is_empty());

    let outcome = commit(
        &mut executor,
        committed_slice(2, vec![certificate(2, 2, 2, vec![])]),
    );
    assert_eq!(output(&outcome)[0], target);
    assert!(!executor.auf_states.contains_key(&target));
    assert!(!executor.slices.contains_key(&1));

    let outcome = commit(
        &mut executor,
        committed_slice(3, vec![certificate(3, 3, 3, vec![])]),
    );
    assert_ne!(output(&outcome)[0], target);
}

#[test]
fn sealed_but_blocked_slice_is_not_changed_by_later_evidence() {
    let mut executor = MrvExecutor::new(1, 2);
    commit(
        &mut executor,
        committed_slice(1, vec![certificate(10, 10, 10, vec![])]),
    );

    let a_certificate = certificate(1, 1, 1, vec![]);
    let a = a_certificate.digest;
    let b_certificate = certificate(2, 1, 2, vec![]);
    let b = b_certificate.digest;
    let outcome = commit(
        &mut executor,
        committed_slice(2, vec![a_certificate, b_certificate]),
    );

    let sealed = executor.slices.get(&2).unwrap().sealed.as_ref().unwrap();
    let fixed_order = sealed.order.clone();
    let fixed_sccs = sealed.ordered_sccs.clone();
    assert_eq!(fixed_order, vec![a, b]);
    assert!(executor.store.contains_key(&b));
    assert!(outcome.released.is_empty());

    // If slice 2 were recomputed, this later round-2 observer would create B -> A evidence inside
    // its comparison window. A sealed result must remain fixed while slice 1 still blocks release.
    let outcome = commit(
        &mut executor,
        committed_slice(3, vec![certificate(3, 2, 3, vec![b])]),
    );

    let sealed = executor.slices.get(&2).unwrap().sealed.as_ref().unwrap();
    assert_eq!(sealed.order, fixed_order);
    assert_eq!(sealed.ordered_sccs, fixed_sccs);
    assert!(outcome.released.is_empty());
}

#[test]
fn ancestry_walk_crosses_a_sealed_intermediate() {
    let mut executor = MrvExecutor::new(1, 2);
    let target_certificate = certificate(1, 1, 1, vec![]);
    let target = target_certificate.digest;
    commit(
        &mut executor,
        committed_slice(1, vec![target_certificate, certificate(10, 10, 10, vec![])]),
    );

    let intermediate_certificate = certificate(2, 2, 2, vec![target]);
    let intermediate = intermediate_certificate.digest;
    commit(
        &mut executor,
        committed_slice(2, vec![intermediate_certificate]),
    );
    assert!(!executor.auf_states.contains_key(&intermediate));
    assert!(executor.store.contains_key(&intermediate));

    let outcome = commit(
        &mut executor,
        committed_slice(3, vec![certificate(3, 3, 3, vec![intermediate])]),
    );

    assert_eq!(executor.seen_count_at(&target, 3), 1);
    assert!(outcome.released.is_empty());
}

#[test]
fn release_preserves_exporter_slice_order() {
    let mut executor = MrvExecutor::new(1, 2);
    let first_certificate = certificate(1, 10, 1, vec![]);
    let first = first_certificate.digest;
    let second_certificate = certificate(2, 1, 2, vec![]);
    let second = second_certificate.digest;

    commit(&mut executor, committed_slice(1, vec![first_certificate]));
    let outcome = commit(&mut executor, committed_slice(2, vec![second_certificate]));
    assert!(executor.slices.get(&2).unwrap().sealed.is_some());
    assert!(outcome.released.is_empty());

    let outcome = commit(
        &mut executor,
        committed_slice(3, vec![certificate(3, 12, 3, vec![])]),
    );
    assert_eq!(output(&outcome), vec![first, second]);
    assert!(!executor.store.contains_key(&first));
    assert!(!executor.store.contains_key(&second));
}

#[test]
fn thresholds_follow_the_committee() {
    for (size, reach, delta) in [(0, 1, 1), (1, 1, 1), (3, 1, 1), (4, 3, 2), (7, 5, 3), (10, 7, 4)] {
        let executor = MrvExecutor::new(size, 2);
        assert_eq!(executor.reach_threshold, reach);
        assert_eq!(executor.delta_threshold, delta);
    }
}

#[test]
fn empty_commit_changes_nothing() {
    let mut executor = MrvExecutor::new(1, 2);
    commit(&mut executor, committed_slice(1, vec![certificate(1, 1, 1, vec![])]));
    let before = executor.export_prefix_digest;
    let empty = CommittedSubDag {
        batch_index: 1,
        leader_round: 9,
        leader_digest: Digest([9; 32]),
        certificates: vec![],
    };
    let outcome = commit(&mut executor, empty);
    assert!(outcome.registered.is_none());
    assert!(outcome.sealed.is_empty());
    assert!(outcome.released.is_empty());
    assert_eq!(executor.frontier_round, 1);
    assert_eq!(executor.cumulative_member_count, 1);
    assert_eq!(executor.export_prefix_digest, before);
}

#[test]
fn registration_reports_the_commit() {
    let mut executor = MrvExecutor::new(4, 3);
    let b = certificate(2, 2, 2, vec![]);
    let a = certificate(1, 4, 1, vec![b.digest]);
    let members = vec![a.digest, b.digest];
    let outcome = commit(&mut executor, committed_slice(7, vec![a, b]));
    let registered = outcome.registered.unwrap();
    assert_eq!(registered.slice_id, 7);
    assert_eq!(registered.leader_round, 2);
    assert_eq!(registered.leader_digest, members[1]);
    assert_eq!(registered.slice_size, 2);
    assert_eq!(registered.seal_horizon, 7);
    assert_eq!(registered.cumulative_member_count, 2);
    assert_eq!(
        registered.member_order_digest,
        fingerprint_digests(b"MRV-MEMBER-ORDER-v1", &members)
    );
    let member_set = fingerprint_digests(b"MRV-MEMBER-SET-v1", &sort_digests(&members));
    assert_eq!(registered.member_set_digest, member_set);
    assert_eq!(
        registered.export_prefix_digest,
        extend_prefix(&Digest([0; 32]), 2, &members[1], &member_set)
    );
    assert_eq!(executor.export_prefix_digest, registered.export_prefix_digest);
    assert_eq!(executor.frontier_round, 4);
    assert_eq!(executor.active_floor_round, Some(2));
}

#[test]
fn sealing_reports_the_slice() {
    let mut executor = MrvExecutor::new(1, 2);
    let first = certificate(1, 1, 1, vec![]);
    let digest = first.digest;
    commit(&mut executor, committed_slice(1, vec![first]));
    let outcome = commit(
        &mut executor,
        committed_slice(2, vec![certificate(2, 4, 2, vec![])]),
    );
    assert_eq!(outcome.sealed.len(), 1);
    let report = outcome.sealed[0];
    assert_eq!(report.slice_id, 1);
    assert_eq!(report.mrv_window, 2);
    assert_eq!(report.slice_size, 1);
    assert_eq!(report.slice_max_round, 1);
    assert_eq!(report.seal_horizon, 3);
    assert_eq!(report.seal_wait_rounds, 3);
    assert_eq!(report.sealed.snapshot_round, 4);
    assert_eq!(report.sealed.trigger_slice_id, 2);
    assert_eq!(
        report.sealed.trigger_export_prefix_digest,
        executor.export_prefix_digest
    );
    assert_eq!(
        report.sealed.execution_order_digest,
        fingerprint_digests(b"MRV-EXECUTION-ORDER-v1", &[digest])
    );
    assert_eq!(outcome.released.len(), 1);
    assert_eq!(outcome.released[0].slice_id, 1);
    assert_eq!(outcome.released[0].max_round, 1);
    assert_eq!(outcome.released[0].seal_horizon, 3);
    assert_eq!(outcome.released[0].sealed.order, vec![digest]);
    assert_eq!(outcome.released[0].sealed.ordered_sccs, vec![vec![digest]]);
}

#[test]
fn slice_is_sealed_when_the_frontier_reaches_its_horizon() {
    let mut executor = MrvExecutor::new(1, 2);
    commit(&mut executor, committed_slice(1, vec![certificate(1, 5, 1, vec![])]));
    let outcome = commit(&mut executor, committed_slice(2, vec![certificate(2, 6, 2, vec![])]));
    assert!(outcome.sealed.is_empty());
    let outcome = commit(&mut executor, committed_slice(3, vec![certificate(3, 7, 3, vec![])]));
    assert_eq!(outcome.sealed.len(), 1);
    assert_eq!(outcome.sealed[0].slice_id, 1);
}

#[test]
fn horizon_saturates_at_the_last_round() {
    let mut executor = MrvExecutor::new(1, 2);
    let outcome = commit(
        &mut executor,
        committed_slice(1, vec![certificate(1, Round::MAX - 1, 1, vec![])]),
    );
    assert_eq!(outcome.registered.unwrap().seal_horizon, Round::MAX);
    let outcome = commit(
        &mut executor,
        committed_slice(2, vec![certificate(2, Round::MAX, 2, vec![])]),
    );
    assert_eq!(outcome.sealed.len(), 2);
    assert_eq!(executor.store.len(), 0);
    assert_eq!(executor.active_floor_round, None);
}

#[test]
fn every_vertex_leaves_exactly_once_and_in_slice_order() {
    let mut executor = MrvExecutor::new(4, 2);
    let mut committed = Vec::new();
    let mut left = Vec::new();
    let mut slices = Vec::new();
    let mut previous: Vec<Digest> = Vec::new();
    for round in 1..=12u64 {
        let mut certificates = Vec::new();
        for author in 1..=4u8 {
            let parents = if round % 3 == 0 {
                previous.iter().skip(author as usize % 2).cloned().collect()
            } else {
                previous.clone()
            };
            certificates.push(certificate(round as u8, round, author, parents));
        }
        previous = certificates.iter().map(|c| c.digest).collect();
        committed.extend(previous.iter().cloned());
        certificates.reverse();
        let outcome = commit(&mut executor, committed_slice(round, certificates));
        for slice in &outcome.released {
            slices.push(slice.slice_id);
            assert_eq!(slice.certificates.len(), 4);
        }
        left.extend(output(&outcome));
    }
    assert_eq!(slices, (1..=10).collect::<Vec<u64>>());
    let mut expected = committed[..40].to_vec();
    let mut sorted = left.clone();
    expected.sort();
    sorted.sort();
    assert_eq!(sorted, expected);
}

#[test]
fn slices_leave_up_to_the_first_whose_horizon_is_not_reached() {
    let window = 2;
    // The highest rounds rise and fall from slice to slice, and the numbers have gaps.
    let rounds: [u64; 8] = [5, 3, 7, 1, 4, 12, 9, 20];
    let mut executor = MrvExecutor::new(4, window);
    let mut left = Vec::new();
    let mut slices: Vec<(u64, Vec<Digest>)> = Vec::new();
    let mut highest = 0;
    for (place, &round) in rounds.iter().enumerate() {
        let number = 10 + 3 * place as u64;
        let certificates: Vec<Certificate> = (1..=3u8)
            .map(|author| certificate(place as u8, round, author, vec![]))
            .collect();
        let mut members: Vec<Digest> = certificates.iter().map(|c| c.digest).collect();
        members.sort();
        slices.push((number, members));
        highest = highest.max(round);
        let outcome = commit(&mut executor, committed_slice(number, certificates));
        for slice in &outcome.released {
            let mut members: Vec<Digest> = slice.certificates.iter().map(|c| c.digest).collect();
            members.sort();
            left.push((slice.slice_id, members));
        }
        let reached = rounds[..=place]
            .iter()
            .take_while(|&&round| round + window <= highest)
            .count();
        assert_eq!(left, slices[..reached].to_vec());
    }
    assert_eq!(left.len(), 7);
}

#[test]
fn ancestors_leave_before_their_descendants() {
    let mut executor = MrvExecutor::new(4, 2);
    let mut left = Vec::new();
    let mut parents_of: Vec<(Digest, Vec<Digest>)> = Vec::new();
    let mut previous: Vec<Digest> = Vec::new();
    for slice in 1..=8u64 {
        // A slice spans two rounds, and lists the later one first.
        let mut certificates = Vec::new();
        for round in [2 * slice - 1, 2 * slice] {
            let mut level = Vec::new();
            for author in 1..=4u8 {
                let parents: Vec<Digest> =
                    previous.iter().skip((author as usize + round as usize) % 3).cloned().collect();
                // Digests fall from round to round, so that the key alone would not help.
                let vertex = certificate(100 - round as u8, round, author, parents.clone());
                parents_of.push((vertex.digest, parents));
                level.push(vertex);
            }
            previous = level.iter().map(|c| c.digest).collect();
            certificates.extend(level);
        }
        certificates.reverse();
        let outcome = commit(&mut executor, committed_slice(slice, certificates));
        left.extend(output(&outcome));
    }
    assert_eq!(left.len(), 56);
    for (vertex, parents) in &parents_of {
        if let Some(place) = left.iter().position(|d| d == vertex) {
            for parent in parents {
                assert!(left[..place].contains(parent));
            }
        }
    }
}

#[test]
fn slices_are_released_one_by_one() {
    let mut executor = MrvExecutor::new(1, 2);
    commit(&mut executor, committed_slice(1, vec![certificate(1, 5, 1, vec![])]));
    commit(&mut executor, committed_slice(2, vec![certificate(2, 4, 1, vec![])]));
    commit(&mut executor, committed_slice(3, vec![certificate(3, 6, 1, vec![])]));
    let last = committed_slice(4, vec![certificate(4, 7, 1, vec![])]);
    assert!(executor.check_commit(&last).is_ok());
    let taken = executor.take_commit(last);
    assert_eq!(taken.registered.as_ref().unwrap().slice_id, 4);
    let sealed: Vec<u64> = taken.sealed.iter().map(|report| report.slice_id).collect();
    assert_eq!(sealed, vec![1]);

    let first = executor.release_next_slice().unwrap();
    assert_eq!(first.slice_id, 1);
    assert_eq!(first.certificates[0].digest, certificate(1, 5, 1, vec![]).digest);
    // What comes after it is still there, and so is the store.
    assert!(executor.slices.get(&2).unwrap().sealed.is_some());
    assert_eq!(executor.slices.len(), 3);
    assert_eq!(executor.store.len(), 4);

    assert_eq!(executor.release_next_slice().unwrap().slice_id, 2);
    // The third slice is not sealed.
    assert!(executor.release_next_slice().is_none());
    assert_eq!(executor.slices.len(), 2);
    assert_eq!(executor.store.len(), 4);
    executor.finish_commit(&taken);
    assert_eq!(executor.store.len(), 2);
}

#[test]
fn two_executors_agree() {
    let run = |reverse: bool| {
        let mut executor = MrvExecutor::new(4, 3);
        let mut left = Vec::new();
        let mut previous: Vec<Digest> = Vec::new();
        for round in 1..=9u64 {
            let mut certificates = Vec::new();
            for author in 1..=4u8 {
                let parents = previous.iter().skip(author as usize / 3).cloned().collect();
                certificates.push(certificate(7, round, author, parents));
            }
            previous = certificates.iter().map(|c| c.digest).collect();
            if reverse {
                certificates.reverse();
            }
            let outcome = commit(&mut executor, committed_slice(round, certificates));
            left.extend(output(&outcome));
        }
        left
    };
    let one = run(false);
    assert_eq!(one, run(true));
    assert_eq!(one.len(), 24);
}

#[test]
fn several_paths_count_a_creator_once() {
    let mut executor = MrvExecutor::new(4, 4);
    let target = certificate(1, 1, 1, vec![]);
    let d = target.digest;
    let left = certificate(2, 2, 1, vec![d]);
    let right = certificate(3, 2, 2, vec![d]);
    let top = certificate(4, 3, 3, vec![left.digest, right.digest, d]);
    let stranger = certificate(5, 3, 4, vec![]);
    commit(&mut executor, committed_slice(1, vec![target]));
    commit(&mut executor, committed_slice(2, vec![top, stranger, right, left]));
    assert_eq!(executor.seen_count_at(&d, 1), 1);
    assert_eq!(executor.seen_count_at(&d, 2), 2);
    assert_eq!(executor.seen_count_at(&d, 3), 1);
    assert_eq!(executor.seen_count_at(&d, 4), 0);
}

#[test]
fn evidence_is_kept_of_unsealed_slices_only() {
    let mut executor = MrvExecutor::new(1, 2);
    for round in 1..=6u64 {
        commit(
            &mut executor,
            committed_slice(round, vec![certificate(1, round, 1, vec![])]),
        );
        let first_unsealed = round.saturating_sub(1).max(1);
        assert_eq!(executor.auf_states.len() as u64, round - first_unsealed + 1);
        assert_eq!(executor.active_floor_round, Some(first_unsealed));
        assert_eq!(executor.store.len(), executor.auf_states.len());
    }
}

#[test]
fn floor_follows_the_active_vertices() {
    let mut executor = MrvExecutor::new(1, 2);
    assert_eq!(executor.active_floor_round, None);
    let a = insert_target(&mut executor, certificate(1, 5, 1, vec![]));
    let b = insert_target(&mut executor, certificate(2, 3, 2, vec![]));
    let c = insert_target(&mut executor, certificate(3, 4, 3, vec![]));
    assert_eq!(executor.active_floor_round, Some(3));
    executor.release_evidence(&[b]);
    assert_eq!(executor.active_floor_round, Some(4));
    executor.release_evidence(&[a]);
    assert_eq!(executor.active_floor_round, Some(4));
    executor.release_evidence(&[c]);
    assert_eq!(executor.active_floor_round, None);
    executor.note_active_round(9);
    executor.recompute_active_floor_round();
    assert_eq!(executor.active_floor_round, None);
}
