use mrv_executor::client::{
    burst_size, check_size, is_late, ClientError, TransactionSource, BURST_DURATION, PRECISION,
};
use mrv_executor::session::{next_action, ClientAction, ClientEvent, ClientStage};
use mrv_executor::workload::{parse_number, Workload, WorkloadError, SAMPLE_COUNTER_MASK};

#[test]
fn workload_defaults_to_steady() {
    assert_eq!(Workload::from_matches(None, None, None), Ok(Workload::Steady));
    assert_eq!(
        Workload::from_matches(Some("steady"), Some("x"), Some("y")),
        Ok(Workload::Steady)
    );
}

#[test]
fn waves_have_default_durations() {
    assert_eq!(
        Workload::from_matches(Some("waves"), None, None),
        Ok(Workload::Waves {
            burst_ms: 300,
            gap_ms: 1200
        })
    );
    assert_eq!(
        Workload::from_matches(Some("waves"), Some("5"), Some("+70")),
        Ok(Workload::Waves {
            burst_ms: 5,
            gap_ms: 70
        })
    );
}

#[test]
fn workload_errors_are_told_apart() {
    assert_eq!(
        Workload::from_matches(Some("waves"), Some("x"), Some("y")),
        Err(WorkloadError::BurstNotInteger)
    );
    assert_eq!(
        Workload::from_matches(Some("waves"), Some("1"), Some("-1")),
        Err(WorkloadError::GapNotInteger)
    );
    assert_eq!(
        Workload::from_matches(Some("waves"), Some("0"), Some("1")),
        Err(WorkloadError::NotPositive)
    );
    assert_eq!(
        Workload::from_matches(Some("waves"), Some("1"), Some("0")),
        Err(WorkloadError::NotPositive)
    );
    assert_eq!(
        Workload::from_matches(Some("Waves"), None, None),
        Err(WorkloadError::UnsupportedMode(String::from("Waves")))
    );
}

#[test]
fn numbers_are_read_as_by_the_standard_library() {
    for text in [
        "", "0", "7", "+7", "-7", "+", "-", "++1", " 1", "1 ", "007", "1_000", "12a", "a12",
        "18446744073709551615", "18446744073709551616", "99999999999999999999", "\u{0661}",
        "000000000000000000000000000001",
    ] {
        assert_eq!(parse_number(text), text.parse::<u64>().ok(), "{:?}", text);
    }
}

#[test]
fn workloads_have_names() {
    assert_eq!(Workload::Steady.name(), "steady");
    let waves = Workload::Waves {
        burst_ms: 1,
        gap_ms: 1,
    };
    assert_eq!(waves.name(), "waves");
}

#[test]
fn waves_send_in_bursts() {
    let waves = Workload::Waves {
        burst_ms: 300,
        gap_ms: 1200,
    };
    for (elapsed, active) in [(0, true), (299, true), (300, false), (1499, false), (1500, true)] {
        assert_eq!(waves.is_active(elapsed), active);
        assert!(Workload::Steady.is_active(elapsed));
    }
    // Time is counted in 64 bits.
    assert_eq!(waves.is_active(1u128 << 64), waves.is_active(0));
}

#[test]
fn sample_numbers_hold_wave_and_counter() {
    let waves = Workload::Waves {
        burst_ms: 300,
        gap_ms: 1200,
    };
    assert_eq!(Workload::Steady.make_sample_id(123_456, 42), 42);
    assert_eq!(waves.make_sample_id(1499, 42), 42);
    assert_eq!(waves.make_sample_id(1500, 42), (1 << 48) | 42);
    assert_eq!(waves.make_sample_id(1500 * 65_537, 0), 1 << 48);
    assert_eq!(
        Workload::Steady.make_sample_id(0, u64::MAX),
        SAMPLE_COUNTER_MASK
    );
    assert_eq!(SAMPLE_COUNTER_MASK, (1u64 << 48) - 1);
}

#[test]
fn client_arguments_are_checked() {
    assert_eq!(check_size(8), Err(ClientError::TransactionTooSmall));
    assert_eq!(check_size(9), Ok(()));
    assert_eq!(burst_size(19), Err(ClientError::RateTooLow));
    assert_eq!(burst_size(20), Ok(1));
    assert_eq!(burst_size(1_019), Ok(50));
    assert_eq!(PRECISION * BURST_DURATION, 1000);
    assert_eq!(
        ClientError::TransactionTooSmall.message(),
        "Transaction size must be at least 9 bytes"
    );
    assert_eq!(
        ClientError::RateTooLow.message(),
        "Transaction rate must be at least 20 tx/s"
    );
}

#[test]
fn transactions_hold_tag_number_and_padding() {
    let mut source = TransactionSource::starting_at(12, 3, 0x0102_0304_0506_0707);
    assert!(source.tick(&Workload::Steady, 0));
    let sample = source.step(&Workload::Steady, 0).unwrap();
    assert_eq!(sample.sample_id, Some(0));
    assert_eq!(&sample.bytes[..], &[0u8; 12]);
    let standard = source.step(&Workload::Steady, 0).unwrap();
    assert_eq!(standard.sample_id, None);
    assert_eq!(&standard.bytes[..], &[1, 1, 2, 3, 4, 5, 6, 7, 8, 0, 0, 0]);
    let standard = source.step(&Workload::Steady, 0).unwrap();
    assert_eq!(&standard.bytes[..], &[1, 1, 2, 3, 4, 5, 6, 7, 9, 0, 0, 0]);
    assert!(source.step(&Workload::Steady, 0).is_none());
    assert_eq!(source.sample_counter, 1);
    let waves = Workload::Waves {
        burst_ms: 1,
        gap_ms: 1,
    };
    assert!(source.tick(&waves, 4));
    let standard = source.step(&waves, 4).unwrap();
    assert_eq!(&standard.bytes[..], &[1, 1, 2, 3, 4, 5, 6, 7, 10, 0, 0, 0]);
    let sample = source.step(&waves, 4).unwrap();
    assert_eq!(sample.sample_id, Some((2 << 48) | 1));
    assert_eq!(&sample.bytes[..], &[0, 0, 2, 0, 0, 0, 0, 0, 1, 0, 0, 0]);
}

#[test]
fn nothing_is_due_in_the_gap() {
    let mut source = TransactionSource::starting_at(9, 5, 0);
    let waves = Workload::Waves {
        burst_ms: 100,
        gap_ms: 100,
    };
    assert!(!source.tick(&waves, 100));
    assert_eq!(source.place, None);
    assert!(source.tick(&waves, 99));
    assert_eq!(source.place, Some(0));
    let mut source = TransactionSource::starting_at(9, 5, 0);
    assert!(source.tick(&Workload::Steady, 100));
}

#[test]
fn a_burst_ends_after_its_transactions() {
    let mut source = TransactionSource::starting_at(9, 4, 10);
    for burst in 0..6 {
        assert!(source.tick(&Workload::Steady, 0));
        let mut samples = Vec::new();
        for place in 0..4 {
            let next = source.step(&Workload::Steady, 0).unwrap();
            samples.push(next.sample_id.is_some());
            assert_eq!(source.place, Some(place + 1));
        }
        let expected: Vec<bool> = (0..4).map(|place| place == burst % 4).collect();
        assert_eq!(samples, expected);
        assert!(source.step(&Workload::Steady, 0).is_none());
        assert_eq!(source.place, None);
        assert_eq!(source.sample_counter, burst + 1);
        assert_eq!(source.last_number, 10 + 3 * (burst + 1));
    }
}

#[test]
fn bursts_have_fifty_milliseconds() {
    assert!(!is_late(50));
    assert!(is_late(51));
}

#[test]
fn smallest_transaction_has_no_padding() {
    let mut source = TransactionSource::starting_at(9, 2, 0);
    source.tick(&Workload::Steady, 0);
    source.step(&Workload::Steady, 0);
    let standard = source.step(&Workload::Steady, 0).unwrap();
    assert_eq!(&standard.bytes[..], &[1, 0, 0, 0, 0, 0, 0, 0, 1]);
}

#[test]
fn every_burst_holds_one_sample() {
    let mut source = TransactionSource::new(16, 7);
    if source.last_number > u64::MAX - 1_000 {
        source.last_number = 0;
    }
    let mut seen = Vec::new();
    for burst in 0..20u64 {
        let mut samples = 0;
        source.tick(&Workload::Steady, 0);
        while let Some(next) = source.step(&Workload::Steady, 0) {
            assert_eq!(next.bytes.len(), 16);
            if next.sample_id.is_some() {
                samples += 1;
                assert_eq!(next.sample_id, Some(burst));
            }
            assert!(!seen.contains(&next.bytes));
            seen.push(next.bytes);
        }
        assert_eq!(samples, 1);
        assert_eq!(seen.len() as u64, 7 * (burst + 1));
    }
}

#[test]
fn numbers_stop_at_the_last_one() {
    let mut source = TransactionSource::starting_at(9, 2, u64::MAX);
    source.tick(&Workload::Steady, 0);
    assert!(source.can_step());
    assert_eq!(source.step(&Workload::Steady, 0).unwrap().sample_id, Some(0));
    assert!(!source.can_step());
    let mut source = TransactionSource::starting_at(9, 1, 0);
    source.sample_counter = u64::MAX;
    source.tick(&Workload::Steady, 0);
    assert!(source.can_step());
    assert!(source.step(&Workload::Steady, 0).is_some());
    assert!(!source.can_step());
}

/// What a client does on each of the events.
fn session(size: usize, rate: u64, events: &[ClientEvent]) -> Vec<ClientAction> {
    let mut stage = ClientStage::Start;
    let mut actions = Vec::new();
    for &event in events {
        let (next, action) = next_action(stage, event, size, rate);
        stage = next;
        actions.push(action);
    }
    actions
}

#[test]
fn size_is_checked_before_connecting() {
    assert_eq!(
        session(8, 1, &[ClientEvent::Begun]),
        vec![ClientAction::Fail(ClientError::TransactionTooSmall)]
    );
    assert_eq!(session(9, 1, &[ClientEvent::Begun]), vec![ClientAction::Connect]);
}

#[test]
fn rate_is_checked_after_connecting() {
    assert_eq!(
        session(9, 19, &[ClientEvent::Begun, ClientEvent::Succeeded]),
        vec![ClientAction::Connect, ClientAction::Fail(ClientError::RateTooLow)]
    );
    assert_eq!(
        session(9, 19, &[ClientEvent::Begun, ClientEvent::Failed]),
        vec![ClientAction::Connect, ClientAction::FailConnect]
    );
    assert_eq!(
        session(9, 20, &[ClientEvent::Begun, ClientEvent::Failed]),
        vec![ClientAction::Connect, ClientAction::FailConnect]
    );
}

#[test]
fn client_goes_on_until_a_send_fails() {
    let events = [
        ClientEvent::Begun,
        ClientEvent::Succeeded,
        ClientEvent::Ticked { active: false },
        ClientEvent::Ticked { active: true },
        ClientEvent::Succeeded,
        ClientEvent::BurstOver,
        ClientEvent::Ticked { active: true },
        ClientEvent::Failed,
    ];
    let actions = session(9, 20, &events);
    assert_eq!(
        actions,
        vec![
            ClientAction::Connect,
            ClientAction::WaitForTick,
            ClientAction::WaitForTick,
            ClientAction::SendNext,
            ClientAction::SendNext,
            ClientAction::WaitForTick,
            ClientAction::SendNext,
            ClientAction::Finish,
        ]
    );
}
