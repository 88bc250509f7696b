use gptl_routing::failover::{
    to_selector_failure_type, CircuitInfo, CircuitStatus, FailoverConfig, FailoverError,
    FailoverEvent, FailoverManager, FailoverResult, FailoverStep, FailureType, RelayInfo,
    SelectorFailure,
};
use gptl_routing::time::{Duration, Instant};

fn at(secs: u64) -> Instant {
    Instant { nanos: secs * 1_000_000_000 }
}

fn relay(address: &str, key: &str, bandwidth: u64) -> RelayInfo {
    RelayInfo {
        id: format!("id-of-{}", address),
        address: address.to_string(),
        public_key: key.to_string(),
        bandwidth,
    }
}

fn registry() -> Vec<RelayInfo> {
    (0..5)
        .map(|i| relay(&format!("192.168.1.{}:9001", i + 1), &format!("key{}", i), 2_000_000))
        .collect()
}

/// The first known relay that is not the failed one.
fn select(failed: &str) -> Option<RelayInfo> {
    registry().into_iter().find(|r| r.id != failed)
}

fn set_up() -> FailoverManager {
    let mut manager = FailoverManager::new();
    let mut known = registry();
    known.truncate(manager.refill_needed());
    manager.refill_backup_pool(known);
    manager
}

fn fail(
    manager: &mut FailoverManager,
    circuit_id: u32,
    kind: FailureType,
) -> Result<FailoverResult, FailoverError> {
    let failed = manager.get_circuit_info(circuit_id).map(|c| c.primary_relay.id);
    let selection = failed.and_then(|f| select(&f));
    manager.report_failure(circuit_id, kind, selection, at(1), &mut Vec::new())
}

#[test]
fn test_failover_manager_creation() {
    let manager = set_up();
    assert_eq!(manager.backup_pool.len(), 5);
    assert_eq!(manager.max_retries, 3);
}

#[test]
fn test_circuit_registration() {
    let mut manager = set_up();

    let relay = relay("192.168.1.10:9001", "test_key", 1_000_000);
    let (refill, event) = manager.register_circuit(1, relay.clone(), at(0));
    assert!(!refill);
    match event {
        FailoverEvent::CircuitCreated { circuit_id, relay_id } => {
            assert_eq!((circuit_id, relay_id), (1, relay.id));
        }
        _ => unreachable!(),
    }

    assert_eq!(manager.active_circuit_count(), 1);

    let info = manager.get_circuit_info(1).unwrap();
    assert_eq!(info.circuit_id, 1);
    assert_eq!(info.status, CircuitStatus::Active);
    assert_eq!(info.backup_relay.unwrap().id, registry()[0].id);
}

#[test]
fn test_circuit_failure_and_failover() {
    let mut manager = set_up();

    // Register circuit with first relay
    let first_relay = registry()[0].clone();
    manager.register_circuit(1, first_relay.clone(), at(0));

    // Report failure
    let result = fail(&mut manager, 1, FailureType::ConnectionFailed);

    // Should succeed with a new relay
    assert!(matches!(result, Ok(FailoverResult::Success { .. })));

    // Verify circuit has new relay
    let info = manager.get_circuit_info(1).unwrap();
    assert_ne!(info.primary_relay.id, first_relay.id);
}

#[test]
fn test_statistics() {
    let mut manager = set_up();

    // Register some circuits
    for i in 0..3 {
        let relay =
            relay(&format!("10.0.0.{}:9001", i + 1), &format!("test_key_{}", i), 1_000_000);
        manager.register_circuit(i as u32, relay, at(0));
    }

    let stats = manager.get_statistics();
    assert_eq!(stats.total_circuits, 3);
    assert_eq!(stats.active_circuits, 3);
    assert_eq!(stats.backup_pool_size, 2);
}

#[test]
fn test_multiple_failures() {
    let mut manager = set_up();

    let relay = registry()[0].clone();
    manager.register_circuit(1, relay, at(0));

    // Report multiple failures
    for _ in 0..3 {
        let result = fail(&mut manager, 1, FailureType::ConnectionFailed);
        assert!(result.is_ok());
    }

    let stats = manager.get_statistics();
    // Each failure records the relay as failed.
    assert!(stats.failed_relays >= 1);
}

#[test]
fn test_circuit_cleanup() {
    let mut manager = set_up();

    let relay = relay("10.0.0.1:9001", "key1", 1_000_000);
    manager.register_circuit(1, relay, at(0));

    assert_eq!(manager.active_circuit_count(), 1);

    // Report failure to trigger failover
    let _ = fail(&mut manager, 1, FailureType::ConnectionFailed);

    // Circuit should be in failed or recovering state
    let stats = manager.get_statistics();
    assert!(stats.failed_circuits > 0 || stats.recovering_circuits > 0);

    assert!(manager.close_circuit(1).is_ok());
    assert_eq!(manager.active_circuit_count(), 0);
    assert!(manager.close_circuit(1).is_ok());
}

#[test]
fn test_backup_pool_management() {
    let manager = set_up();

    // Backup pool should be populated during initialization
    let backup_count = manager.backup_pool.len();
    assert!(backup_count > 0);
    assert_eq!(manager.refill_needed(), 0);
}

#[test]
fn test_concurrent_failures() {
    let mut manager = set_up();

    // Register multiple circuits
    let relays = registry();
    for i in 0..3 {
        manager.register_circuit(i as u32, relays[i].clone(), at(0));
    }

    // All of them fail
    for i in 0..3 {
        let result = fail(&mut manager, i as u32, FailureType::Timeout);
        assert!(result.is_ok());
    }
}

#[test]
fn test_circuit_status_transitions() {
    let mut manager = set_up();

    let relay = relay("10.0.0.1:9001", "key1", 1_000_000);
    manager.register_circuit(1, relay, at(0));

    let info = manager.get_circuit_info(1).unwrap();
    assert_eq!(info.status, CircuitStatus::Active);

    // Report failure
    fail(&mut manager, 1, FailureType::ConnectionFailed).ok();

    // Status should change (either to Recovering or have new relay)
    let info = manager.get_circuit_info(1);
    assert!(info.is_some());
    assert_eq!(info.unwrap().status, CircuitStatus::Recovering);
}

#[test]
fn test_failure_type_tracking() {
    let mut manager = set_up();

    let relay = registry()[0].clone();
    manager.register_circuit(1, relay.clone(), at(0));

    // Report different failure types
    fail(&mut manager, 1, FailureType::Timeout).ok();
    fail(&mut manager, 1, FailureType::ProtocolError).ok();
    fail(&mut manager, 1, FailureType::AuthenticationFailed).ok();

    let stats = manager.get_statistics();
    // The relay should appear in the failed relays.
    assert!(stats.failed_relays >= 1);
    assert!(manager.failed_relays.contains(&relay.id));
}

#[test]
fn test_relay_exhaustion() {
    let mut manager = set_up();

    let relay = relay("10.0.0.1:9001", "key1", 1_000_000);
    manager.register_circuit(1, relay, at(0));

    // Exhaust all relays by repeated failures
    for _ in 0..20 {
        let result = fail(&mut manager, 1, FailureType::ConnectionFailed);
        if result.is_err() {
            // Expected when relays are exhausted
            break;
        }
    }

    // The pool is used up, and the selector is asked in its place.
    assert!(manager.backup_pool.is_empty());
    let mut events = Vec::new();
    let e = manager.report_failure(1, FailureType::Timeout, None, at(2), &mut events).unwrap_err();
    assert!(matches!(e, FailoverError::NoHealthyRelays));
    assert_eq!(manager.get_circuit_info(1).unwrap().status, CircuitStatus::Failed);
    match events.last().unwrap() {
        FailoverEvent::FailoverFailed { circuit_id, error } => {
            assert_eq!(*circuit_id, 1);
            assert_eq!(error, "No healthy relays available");
        }
        _ => unreachable!(),
    }
}

#[test]
fn test_circuit_info_updates() {
    let mut manager = set_up();

    let relay = relay("10.0.0.1:9001", "key1", 1_000_000);
    manager.register_circuit(1, relay, at(0));

    let info1 = manager.get_circuit_info(1).unwrap();
    let created_at = info1.created_at;

    fail(&mut manager, 1, FailureType::Timeout).ok();

    let info2 = manager.get_circuit_info(1);
    if let Some(info2) = info2 {
        assert_eq!(info2.created_at, created_at);
    }
}

#[test]
fn unknown_circuits_are_errors() {
    let mut manager = FailoverManager::new();
    let mut events = Vec::new();
    let e = manager.report_failure(7, FailureType::Timeout, None, at(0), &mut events).unwrap_err();
    assert_eq!(e.to_string(), "Circuit not found: 7");
    assert!(events.is_empty());
    assert!(matches!(
        manager.begin_failover(7, "x"),
        Err(FailoverError::CircuitNotFound(7))
    ));
    assert!(manager.get_circuit_info(7).is_none());
    assert!(manager.report_activity(7, 1, at(0)).is_ok());
}

#[test]
fn a_backup_that_is_the_failed_relay_is_dropped() {
    let mut manager = FailoverManager::new();
    let same = relay("a", "k", 1);
    manager.refill_backup_pool(vec![same.clone()]);
    manager.register_circuit(1, same.clone(), at(0));
    let step = manager.begin_failover(1, &same.id).unwrap();
    assert!(matches!(step, FailoverStep::AskSelector));
    assert!(manager.get_circuit_info(1).unwrap().backup_relay.is_none());
    let other = relay("b", "k", 1);
    let (new, event) = manager.finish_failover(1, &same.id, Some(other.clone())).unwrap();
    assert_eq!(new.id, other.id);
    match event {
        FailoverEvent::FailoverStarted { circuit_id, old_relay, new_relay } => {
            assert_eq!((circuit_id, old_relay, new_relay), (1, same.id, other.id));
        }
        _ => unreachable!(),
    }
}

#[test]
fn events_of_a_failure_come_in_order() {
    let mut manager = FailoverManager::new();
    let first = relay("a", "k", 1);
    let second = relay("b", "k", 1);
    manager.register_circuit(1, first.clone(), at(0));
    for _ in 0..2 {
        manager.record_relay_failure(&first.id, FailureType::Timeout, at(0));
    }
    let mut events = Vec::new();
    manager
        .report_failure(1, FailureType::PacketLoss, Some(second.clone()), at(5), &mut events)
        .unwrap();
    assert_eq!(events.len(), 4);
    assert!(matches!(&events[0], FailoverEvent::RelayUnhealthy { relay_id } if *relay_id == first.id));
    assert!(matches!(&events[1], FailoverEvent::CircuitFailed { circuit_id: 1, reason: FailureType::PacketLoss, .. }));
    assert!(matches!(&events[2], FailoverEvent::FailoverStarted { .. }));
    assert!(matches!(&events[3], FailoverEvent::FailoverCompleted { new_relay, .. } if *new_relay == second.id));
    let record = manager.failed_relays.get(&first.id).unwrap();
    assert_eq!((record.failure_count, record.consecutive_failures), (3, 3));
    assert_eq!(record.last_failure, at(5));
}

#[test]
fn only_ten_failure_types_are_kept() {
    let mut manager = FailoverManager::new();
    for i in 0..15u64 {
        let kind = if i < 5 { FailureType::Timeout } else { FailureType::Rejected };
        let unhealthy = manager.record_relay_failure("r", kind, at(i));
        assert_eq!(unhealthy, i >= 2);
    }
    let record = manager.failed_relays.get("r").unwrap();
    assert_eq!(record.failure_types.len(), 10);
    assert!(record.failure_types.iter().all(|t| *t == FailureType::Rejected));
    assert_eq!(record.failure_count, 15);
}

#[test]
fn the_pool_is_refilled_when_it_runs_low() {
    let mut manager = set_up();
    let mut wanted = Vec::new();
    for i in 0..6u32 {
        wanted.push(manager.register_circuit(i, relay("x", "k", 1), at(0)).0);
    }
    // Fewer than two of five are left from the fourth on; the sixth finds none.
    assert_eq!(wanted, vec![false, false, false, true, true, false]);
    assert_eq!(manager.refill_needed(), 5);
    let (size, event) = manager.refill_backup_pool(vec![relay("y", "k", 1)]);
    assert_eq!(size, 1);
    assert!(matches!(event, Some(FailoverEvent::BackupPoolRefilled { count: 1 })));
    let (size, event) = manager.refill_backup_pool(vec![]);
    assert_eq!(size, 1);
    assert!(event.is_none());
}

#[test]
fn idle_circuits_degrade_and_activity_revives_them() {
    let mut manager = FailoverManager::new();
    manager.register_circuit(1, relay("a", "k", 1), at(0));
    manager.check_stale_circuits(at(300));
    assert_eq!(manager.get_circuit_info(1).unwrap().status, CircuitStatus::Active);
    manager.check_stale_circuits(at(301));
    assert_eq!(manager.get_circuit_info(1).unwrap().status, CircuitStatus::Degraded);
    assert_eq!(manager.get_statistics().active_circuits, 1);
    manager.report_activity(1, 42, at(302)).unwrap();
    let info: CircuitInfo = manager.get_circuit_info(1).unwrap();
    assert_eq!(info.status, CircuitStatus::Active);
    assert_eq!(info.bytes_transferred, 42);
    assert_eq!(info.last_activity, at(302));
}

#[test]
fn relays_recover_after_five_minutes() {
    let mut manager = FailoverManager::new();
    manager.record_relay_failure("a", FailureType::Timeout, at(0));
    manager.record_relay_failure("b", FailureType::Timeout, at(100));
    assert!(manager.check_recoverable_relays(at(300)).is_empty());
    assert_eq!(manager.check_recoverable_relays(at(301)), vec!["a"]);
    assert_eq!(manager.failed_relays.get("a").unwrap().consecutive_failures, 0);
    assert_eq!(manager.failed_relays.get("a").unwrap().failure_count, 1);
    assert_eq!(manager.failed_relays.get("b").unwrap().consecutive_failures, 1);
}

#[test]
fn failures_as_the_selector_knows_them() {
    assert_eq!(to_selector_failure_type(FailureType::ConnectionFailed), SelectorFailure::ConnectionFailed);
    assert_eq!(to_selector_failure_type(FailureType::Timeout), SelectorFailure::Timeout);
    assert_eq!(to_selector_failure_type(FailureType::ProtocolError), SelectorFailure::ProtocolError);
    assert_eq!(
        to_selector_failure_type(FailureType::AuthenticationFailed),
        SelectorFailure::AuthenticationFailed
    );
    assert_eq!(to_selector_failure_type(FailureType::Rejected), SelectorFailure::RelayRejected);
    for kind in [FailureType::HighLatency, FailureType::PacketLoss, FailureType::Unhealthy] {
        assert_eq!(to_selector_failure_type(kind), SelectorFailure::ConnectionFailed);
    }
}

#[test]
fn failover_configuration_and_errors() {
    let config = FailoverConfig::default();
    assert_eq!(config.min_backup_pool_size, 5);
    assert_eq!(config.max_failures_before_unhealthy, 3);
    assert_eq!(config.health_check_interval, Duration::from_secs(60));
    assert_eq!(config.failure_cooldown, Duration::from_secs(300));
    let manager = FailoverManager::with_config(FailoverConfig { auto_recovery: false, ..config });
    assert!(!manager.auto_recovery);
    assert_eq!(manager.recovery_timeout, Duration::from_secs(30));
    assert_eq!(FailoverError::FailoverTimeout.to_string(), "Failover timeout");
    assert_eq!(FailoverError::RegistryError("x".to_string()).to_string(), "Registry error: x");
    assert_eq!(FailoverError::SelectorError("x".to_string()).to_string(), "Selector error: x");
    assert_eq!(FailoverError::RecoveryFailed("x".to_string()).to_string(), "Recovery failed: x");
}

#[test]
fn failures_that_cannot_be_counted_are_told_beforehand() {
    let mut manager = set_up();
    manager.register_circuit(1, relay("10.0.0.1:9001", "key", 1), at(0));
    assert!(manager.can_report_failure(1));
    assert!(manager.can_report_failure(2));
    manager.record_relay_failure("id-of-10.0.0.1:9001", FailureType::Timeout, at(1));
    assert!(manager.can_report_failure(1));
    let mut failures = manager.failed_relays.remove("id-of-10.0.0.1:9001").unwrap();
    failures.failure_count = u32::MAX;
    manager.failed_relays.insert("id-of-10.0.0.1:9001", failures);
    assert!(!manager.can_report_failure(1));
}

#[test]
fn the_configured_number_of_failures_is_too_many() {
    let config = FailoverConfig { max_failures_before_unhealthy: 2, ..FailoverConfig::default() };
    let mut manager = FailoverManager::with_config(config);
    assert!(!manager.record_relay_failure("a", FailureType::Timeout, at(0)));
    assert!(manager.record_relay_failure("a", FailureType::Timeout, at(1)));
    let config = FailoverConfig { max_failures_before_unhealthy: 4, ..config };
    let mut manager = FailoverManager::with_config(config);
    for _ in 0..3 {
        assert!(!manager.record_relay_failure("a", FailureType::Timeout, at(0)));
    }
    assert!(manager.record_relay_failure("a", FailureType::Timeout, at(0)));
}

#[test]
fn recovery_follows_the_settings() {
    let config =
        FailoverConfig { failure_cooldown: Duration::from_secs(10), ..FailoverConfig::default() };
    let mut manager = FailoverManager::with_config(config);
    manager.record_relay_failure("a", FailureType::Timeout, at(0));
    assert!(manager.check_recoverable_relays(at(10)).is_empty());
    assert_eq!(manager.check_recoverable_relays(at(11)), vec!["a"]);

    let config = FailoverConfig { auto_recovery: false, ..config };
    let mut manager = FailoverManager::with_config(config);
    manager.record_relay_failure("a", FailureType::Timeout, at(0));
    assert!(manager.check_recoverable_relays(at(11)).is_empty());
    assert_eq!(manager.failed_relays.get("a").unwrap().consecutive_failures, 1);
}

#[test]
fn failed_relays_do_not_become_backups() {
    let mut manager = FailoverManager::new();
    let (bad, good) = (relay("bad", "k", 1), relay("good", "k", 1));
    manager.record_relay_failure(&bad.id, FailureType::Timeout, at(0));
    let (size, event) = manager.refill_backup_pool(vec![bad.clone(), good.clone()]);
    assert_eq!(size, 1);
    assert!(matches!(event, Some(FailoverEvent::BackupPoolRefilled { count: 1 })));
    assert_eq!(manager.backup_pool[0].id, good.id);
    let (size, event) = manager.refill_backup_pool(vec![bad]);
    assert_eq!(size, 1);
    assert!(event.is_none());
}
