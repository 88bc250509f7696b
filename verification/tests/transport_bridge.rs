use gptl_routing::circuit::health::{FailureType as HealthFailure, HealthStatus};
use gptl_routing::failover::{FailoverError, FailoverManager, FailureType, RelayInfo};
use gptl_routing::reading::Reading;
use gptl_routing::time::{Duration, Instant};
use gptl_routing::transport_bridge::{
    classify, classify_failover, FailoverBridge, FailureKind, TransportBridge,
};
use gptl_routing::CircuitHealthMonitor;

fn now() -> Instant {
    Instant { nanos: 1_000_000_000_000 }
}

fn alpha() -> RelayInfo {
    RelayInfo {
        id: "alpha-id".to_string(),
        address: "10.0.0.1:9001".to_string(),
        public_key: "abc".to_string(),
        bandwidth: 1_000_000,
    }
}

fn average(millis: f64) -> Reading {
    Reading { bits: millis.to_bits() }
}

#[test]
fn test_bridge_forwards_register_success_unregister() {
    let mut bridge = TransportBridge::new(CircuitHealthMonitor::new());

    bridge.register(42, "alpha", now());
    bridge.record_success(42, Duration::from_millis(120), 1024, average(120.0), now());

    let status = bridge.health.get_health_status(42);
    assert!(status.is_some(), "monitor must have registered circuit 42");

    bridge.unregister(42);
    let status_after = bridge.health.get_health_status(42);
    assert!(status_after.is_none(), "monitor must have removed circuit 42 after unregister");
}

#[test]
fn test_bridge_classifies_failure_kinds() {
    let expected = [
        (FailureKind::Handshake, HealthFailure::ConnectionFailed, FailureType::ConnectionFailed),
        (FailureKind::Extend, HealthFailure::ProtocolError, FailureType::ProtocolError),
        (FailureKind::Stream, HealthFailure::ConnectionFailed, FailureType::Rejected),
        (FailureKind::CircuitDrop, HealthFailure::ConnectionFailed, FailureType::ConnectionFailed),
        (FailureKind::Other, HealthFailure::ProtocolError, FailureType::ProtocolError),
    ];
    for (kind, health, failover) in expected {
        assert_eq!(classify(kind), health);
        assert_eq!(classify_failover(kind), failover);
    }
}

#[test]
fn test_failover_bridge_register_via_nickname_lookup() {
    let mut bridge = FailoverBridge::new(FailoverManager::new())
        .with_health_monitor(CircuitHealthMonitor::new());
    bridge.set_known_relays(&[("alpha".to_string(), alpha())]);

    assert!(bridge.register(123, "alpha", now()).is_some());
    let mut events = Vec::new();
    let r = bridge.record_failure(123, FailureKind::Stream, "EOF", None, now(), &mut events);
    assert!(matches!(r, Err(FailoverError::NoHealthyRelays)));

    let status = bridge.health.as_ref().unwrap().get_health_status(123);
    assert!(
        status.is_some(),
        "after FailoverBridge::register the monitor must know about circuit 123"
    );
    assert!(bridge.failover.failed_relays.contains("alpha-id"));
}

#[test]
fn test_failover_bridge_unknown_nickname_skips_silently() {
    let mut bridge = FailoverBridge::new(FailoverManager::new());

    // Calling register with an unknown nickname must not panic.
    assert!(bridge.register(1, "ghost-relay", now()).is_none());
    assert_eq!(bridge.failover.active_circuit_count(), 0);
    assert!(bridge.health.is_none());
}

#[test]
fn test_bridge_record_failure_drives_health_monitor() {
    let mut bridge = TransportBridge::new(CircuitHealthMonitor::new());

    bridge.register(7, "alpha", now());

    // Hammer the circuit with failures.
    for _ in 0..10 {
        assert!(bridge.health.can_record_failure(7, now()));
        bridge.record_failure(7, FailureKind::Stream, "EOF", now());
    }

    // Status must have degraded.
    let status = bridge.health.get_health_status(7).unwrap();
    assert!(
        !matches!(status, HealthStatus::Healthy),
        "after 10 failures the circuit must no longer be Healthy; got {:?}",
        status
    );
}

#[test]
fn activity_reaches_the_failover_manager_with_bytes_only() {
    let mut bridge = FailoverBridge::new(FailoverManager::new());
    bridge.set_known_relays(&[
        ("alpha".to_string(), RelayInfo { bandwidth: 1, ..alpha() }),
        ("alpha".to_string(), alpha()),
    ]);
    assert_eq!(bridge.lookup_relay("alpha").unwrap().bandwidth, 1_000_000);
    bridge.register(1, "alpha", now());
    let later = Instant { nanos: now().nanos + 5 };
    bridge.record_success(1, Duration::from_millis(1), 0, average(1.0), later);
    assert_eq!(bridge.failover.get_circuit_info(1).unwrap().last_activity, now());
    bridge.record_success(1, Duration::from_millis(1), 9, average(1.0), later);
    let info = bridge.failover.get_circuit_info(1).unwrap();
    assert_eq!((info.last_activity, info.bytes_transferred), (later, 9));
    // The failover manager keeps a circuit that is unregistered.
    bridge.unregister(1);
    assert_eq!(bridge.failover.active_circuit_count(), 1);
    bridge.set_known_relays(&[]);
    assert!(bridge.lookup_relay("alpha").is_none());
}
