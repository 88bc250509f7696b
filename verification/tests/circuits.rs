use gptl_routing::circuit::health::{CircuitMetrics, FailureType};
use gptl_routing::circuit::pool::{BuildOutcome, Refill};
use gptl_routing::circuit::rotation::{add_jitter, CircuitRotator, RotationError, RotationInfo};
use gptl_routing::ratio::Ratio;
use gptl_routing::reading::Reading;
use gptl_routing::time::{Duration, Instant};
use gptl_routing::{
    create_circuit_manager, create_circuit_manager_with_pool, CircuitBuilder, CircuitHandle,
    CircuitHealthMonitor, CircuitId, CircuitManager, CircuitManagerBuilder, CircuitManagerConfig,
    CircuitManagerEvent, CircuitPool, CircuitPoolConfig, HealthMonitorConfig, HealthStatus,
    PoolCircuit, PoolCircuitState, PoolError, PoolEvent, PoolStatistics, RetireReason,
    RotationEvent, RotationPolicy, RotationStatistics, RotationTrigger,
};

struct MockBuilder {
    works: bool,
}

impl CircuitBuilder for MockBuilder {
    fn build_circuit(&self, circuit_id: CircuitId) -> Result<Vec<String>, PoolError> {
        if self.works {
            Ok(vec![
                format!("relay_{}_1", circuit_id),
                format!("relay_{}_2", circuit_id),
                format!("relay_{}_3", circuit_id),
            ])
        } else {
            Err(PoolError::BuildFailed("Mock failure".to_string()))
        }
    }

    fn test_circuit(&self, _path: &Vec<String>) -> Result<bool, PoolError> {
        Ok(self.works)
    }

    fn close_circuit(&self, _circuit_id: CircuitId) -> Result<(), PoolError> {
        Ok(())
    }
}

const WORKS: MockBuilder = MockBuilder { works: true };
const FAILS: MockBuilder = MockBuilder { works: false };

fn at(millis: u64) -> Instant {
    Instant { nanos: millis * 1_000_000 }
}

fn millis(n: u64) -> Duration {
    Duration::from_millis(n)
}

fn average(millis: f64) -> Reading {
    Reading { bits: millis.to_bits() }
}

// Health

#[test]
fn test_health_status() {
    assert!(HealthStatus::Healthy.is_usable());
    assert!(HealthStatus::Degraded.is_usable());
    assert!(!HealthStatus::Unhealthy.is_usable());
    assert!(!HealthStatus::Failed.is_usable());

    assert_eq!(HealthStatus::Healthy.score(), 100);
    assert_eq!(HealthStatus::Failed.score(), 0);
}

#[test]
fn test_circuit_metrics_new() {
    let metrics = CircuitMetrics::new(1, at(0));
    assert_eq!(metrics.circuit_id, 1);
    assert_eq!(metrics.health_score, 100);
    assert_eq!(metrics.status, HealthStatus::Healthy);
}

#[test]
fn test_circuit_metrics_success() {
    let mut metrics = CircuitMetrics::new(1, at(0));

    metrics.record_success(millis(100), 1024, average(100.0), at(1));
    assert_eq!(metrics.successful_requests, 1);
    assert_eq!(metrics.bytes_transferred, 1024);
    assert_eq!(metrics.consecutive_failures, 0);

    metrics.record_success(millis(200), 512, average(110.0), at(2));
    assert_eq!(metrics.successful_requests, 2);
    assert_eq!(metrics.average_latency(), millis(150));
}

#[test]
fn test_circuit_metrics_failure() {
    let mut metrics = CircuitMetrics::new(1, at(0));

    metrics.record_failure(FailureType::Timeout, at(1));
    assert_eq!(metrics.failed_requests, 1);
    assert_eq!(metrics.consecutive_failures, 1);

    metrics.record_failure(FailureType::ConnectionFailed, at(2));
    assert_eq!(metrics.failed_requests, 2);
    assert_eq!(metrics.consecutive_failures, 2);
}

#[test]
fn test_circuit_metrics_health_degradation() {
    let mut metrics = CircuitMetrics::new(1, at(0));

    // Multiple failures should degrade health
    for _ in 0..5 {
        metrics.record_failure(FailureType::Timeout, at(1));
    }

    assert!(metrics.health_score < 100);
    assert!(matches!(
        metrics.status,
        HealthStatus::Degraded | HealthStatus::Unhealthy | HealthStatus::Failed
    ));
}

#[test]
fn failures_cost_twenty_five_points_each() {
    // Fifteen for each in a row and ten for each recent one.
    let mut metrics = CircuitMetrics::new(1, at(0));
    let mut scores = Vec::new();
    for _ in 0..5 {
        metrics.record_failure(FailureType::Timeout, at(1));
        scores.push(metrics.health_score);
    }
    assert_eq!(scores, vec![75, 50, 25, 0, 0]);
    assert_eq!(metrics.status, HealthStatus::Failed);
    // A success ends the run, but the failures are still recent.
    metrics.record_success(millis(1), 1, average(1.0), at(2));
    assert_eq!(metrics.health_score, 50);
}

#[test]
fn scores_hold_for_any_number_of_failures() {
    let mut metrics = CircuitMetrics::new(1, at(0));
    for n in 1..=300u32 {
        metrics.record_failure(FailureType::Timeout, at(1));
        assert_eq!(metrics.consecutive_failures, n);
        let expected = 100u32.saturating_sub(25 * n);
        assert_eq!(u32::from(metrics.health_score), expected);
    }
    assert_eq!(metrics.recent_failures.len(), 300);
    assert_eq!(metrics.status, HealthStatus::Failed);

    let mut monitor = CircuitHealthMonitor::new();
    for _ in 0..30 {
        assert!(monitor.can_record_failure(1, at(1)));
        monitor.record_failure(1, FailureType::Timeout, at(1));
    }
    assert_eq!(monitor.get_health_score(1), Some(0));
    assert_eq!(monitor.get_healthiest_circuit(&vec![1, 2]), None);
    monitor.register_circuit(2, at(1));
    assert_eq!(monitor.get_healthiest_circuit(&vec![1, 2]), Some(2));
}

#[test]
fn test_failure_rate() {
    let mut metrics = CircuitMetrics::new(1, at(0));
    let rate = |m: &CircuitMetrics| {
        let r = m.failure_rate();
        r.num as f64 / r.den as f64
    };

    assert_eq!(rate(&metrics), 0.0);

    metrics.record_failure(FailureType::Timeout, at(1));
    assert_eq!(rate(&metrics), 1.0);

    metrics.record_success(millis(100), 100, average(100.0), at(2));
    assert_eq!(rate(&metrics), 0.5);
}

#[test]
fn test_circuit_metrics_rotation_checks() {
    let mut metrics = CircuitMetrics::new(1, at(0));

    // Age check
    assert!(!metrics.should_rotate_due_to_age(Duration::from_secs(3600), at(0)));

    // Usage checks
    assert!(!metrics.should_rotate_due_to_usage(1000, 100));

    metrics.bytes_transferred = 1001;
    assert!(metrics.should_rotate_due_to_usage(1000, 100));
}

#[test]
fn test_health_monitor_register() {
    let mut monitor = CircuitHealthMonitor::new();

    monitor.register_circuit(1, at(0));

    let status = monitor.get_health_status(1);
    assert!(status.is_some());
    assert_eq!(status.unwrap(), HealthStatus::Healthy);
}

#[test]
fn test_health_monitor_record_success() {
    let mut monitor = CircuitHealthMonitor::new();

    monitor.record_success(1, millis(100), 1024, average(100.0), at(0));

    let metrics = monitor.get_metrics(1).unwrap();
    assert_eq!(metrics.successful_requests, 1);
    assert_eq!(metrics.bytes_transferred, 1024);
}

#[test]
fn test_health_monitor_get_healthiest() {
    let mut monitor = CircuitHealthMonitor::new();

    // Register circuits
    monitor.register_circuit(1, at(0));
    monitor.register_circuit(2, at(0));

    // Record failures for circuit 1
    monitor.record_failure(1, FailureType::Timeout, at(1));
    monitor.record_failure(1, FailureType::Timeout, at(1));

    // Record success for circuit 2
    monitor.record_success(2, millis(100), 100, average(100.0), at(1));

    // Circuit 2 should be healthiest
    let healthiest = monitor.get_healthiest_circuit(&vec![1, 2]);
    assert_eq!(healthiest, Some(2));
    // The ranking has the worst first.
    assert_eq!(monitor.health_ranking, vec![1, 2]);
    assert_eq!(monitor.get_circuits_by_health(), vec![(2, 100), (1, 50)]);
}

#[test]
fn test_health_monitor_needs_rotation() {
    let mut monitor = CircuitHealthMonitor::new();

    monitor.register_circuit(1, at(0));

    // Initially shouldn't need rotation
    assert!(!monitor.needs_rotation(1, at(0)));

    // After failures, should need rotation
    for _ in 0..5 {
        monitor.record_failure(1, FailureType::Timeout, at(0));
    }

    assert!(monitor.needs_rotation(1, at(0)));
    assert_eq!(monitor.get_unhealthy_circuits(), vec![1]);
    assert!(!monitor.needs_rotation(2, at(0)));
}

#[test]
fn test_health_monitor_statistics() {
    let mut monitor = CircuitHealthMonitor::new();

    monitor.register_circuit(1, at(0));
    monitor.register_circuit(2, at(0));

    monitor.record_success(1, millis(100), 1000, average(100.0), at(1));
    monitor.record_success(2, millis(200), 2000, average(200.0), at(1));

    let stats = monitor.get_statistics();
    assert_eq!(stats.total_circuits, 2);
    assert_eq!(stats.healthy_circuits, 2);
    assert_eq!(stats.total_bytes_transferred, 3000);
}

#[test]
fn health_defaults() {
    let config = HealthMonitorConfig::default();
    assert_eq!(config.max_failure_rate, Ratio::new(3, 10));
    assert_eq!(config.max_consecutive_failures, 3);
    let monitor = CircuitHealthMonitor::default();
    assert_eq!(monitor.get_health_status(1), None);
    assert_eq!(monitor.get_health_score(1), None);
}

#[test]
fn old_failures_are_forgiven() {
    let mut monitor = CircuitHealthMonitor::new();
    monitor.record_failure(1, FailureType::Timeout, at(0));
    assert_eq!(monitor.get_health_score(1), Some(75));
    // More than five minutes later only the new failure is recent.
    monitor.record_failure(1, FailureType::Timeout, at(300_001));
    assert_eq!(monitor.get_metrics(1).unwrap().recent_failures.len(), 1);
    assert_eq!(monitor.get_health_score(1), Some(60));
    monitor.unregister_circuit(1);
    assert_eq!(monitor.get_health_score(1), None);
}

// Pool

fn pool_config() -> CircuitPoolConfig {
    CircuitPoolConfig {
        min_pool_size: 2,
        max_pool_size: 5,
        pre_build_count: 2,
        build_timeout: Duration::from_secs(5),
        ..CircuitPoolConfig::default()
    }
}

#[test]
fn test_pool_circuit_states() {
    let mut circuit = PoolCircuit::new(1, vec!["r1".to_string(), "r2".to_string()], at(0));

    assert_eq!(circuit.state, PoolCircuitState::Building);
    assert!(!circuit.is_available());

    circuit.mark_ready(at(1));
    assert_eq!(circuit.state, PoolCircuitState::Ready);
    assert!(circuit.is_available());

    circuit.mark_in_use(at(2));
    assert_eq!(circuit.state, PoolCircuitState::InUse);
    assert!(!circuit.is_available());
    assert_eq!(circuit.use_count, 1);
    assert!(circuit.is_dirty);

    circuit.mark_available();
    assert_eq!(circuit.state, PoolCircuitState::Ready);
}

#[test]
fn test_pool_circuit_age() {
    let circuit = PoolCircuit::new(1, vec!["r1".to_string()], at(0));

    // Circuit should be fresh
    assert!(!circuit.needs_refresh(Duration::from_secs(60), at(1)));

    // Age check should work
    assert!(circuit.age(at(1)).nanos < Duration::from_secs(60).nanos);
    assert_eq!(circuit.age(at(5)), millis(5));
}

#[test]
fn test_circuit_pool_basic() {
    let mut monitor = CircuitHealthMonitor::new();
    let mut pool = CircuitPool::new(pool_config());
    pool.initialize(&mut monitor, &WORKS, at(0), &mut Vec::new()).unwrap();

    // Check statistics
    let stats = pool.get_statistics();
    assert_eq!(stats.ready_circuits, 2);
}

#[test]
fn test_circuit_pool_acquire_release() {
    let mut monitor = CircuitHealthMonitor::new();
    let mut pool = CircuitPool::new(pool_config());
    let mut events = Vec::new();
    pool.initialize(&mut monitor, &WORKS, at(0), &mut events).unwrap();

    // Acquire a circuit
    let circuit_id = pool.acquire_circuit(&mut monitor, &WORKS, at(1), &mut events).unwrap();

    let stats = pool.get_statistics();
    assert_eq!(stats.in_use_circuits, 1);
    // Acquiring triggers check_and_refill, which builds 1 new circuit to keep the
    // pool at min_pool_size=2, so ready_circuits stays at 2.
    assert_eq!(stats.ready_circuits, 2);

    // Release the circuit
    pool.release_circuit(&mut monitor, &WORKS, circuit_id, at(2), &mut events).unwrap();

    let stats = pool.get_statistics();
    assert_eq!(stats.in_use_circuits, 0);
    // After release the circuit is back in ready state; pool now has 3 ready circuits.
    assert_eq!(stats.ready_circuits, 3);
}

#[test]
fn test_circuit_pool_retire() {
    let config = CircuitPoolConfig {
        min_pool_size: 2,
        max_pool_size: 5,
        pre_build_count: 2,
        max_use_count: 3,
        ..CircuitPoolConfig::default()
    };

    let mut monitor = CircuitHealthMonitor::new();
    let mut pool = CircuitPool::new(config);
    let mut events = Vec::new();
    pool.initialize(&mut monitor, &WORKS, at(0), &mut events).unwrap();

    // Acquire and release circuits multiple times
    for _ in 0..4 {
        let circuit_id = pool.acquire_circuit(&mut monitor, &WORKS, at(1), &mut events).unwrap();
        pool.release_circuit(&mut monitor, &WORKS, circuit_id, at(1), &mut events).unwrap();
    }
}

#[test]
fn a_circuit_that_was_used_too_often_is_retired() {
    let config = CircuitPoolConfig {
        min_pool_size: 0,
        max_pool_size: 2,
        pre_build_count: 1,
        max_use_count: 2,
        ..CircuitPoolConfig::default()
    };
    let mut monitor = CircuitHealthMonitor::new();
    let mut pool = CircuitPool::new(config);
    let mut events = Vec::new();
    pool.initialize(&mut monitor, &WORKS, at(0), &mut events).unwrap();
    let first = pool.acquire_circuit(&mut monitor, &WORKS, at(0), &mut events).unwrap();
    pool.release_circuit(&mut monitor, &WORKS, first, at(0), &mut events).unwrap();
    let second = pool.acquire_circuit(&mut monitor, &WORKS, at(0), &mut events).unwrap();
    assert_eq!(first, second);
    pool.release_circuit(&mut monitor, &WORKS, second, at(0), &mut events).unwrap();
    assert!(pool.get_circuit(first).is_none());
    assert_eq!(monitor.get_health_status(first), None);
    assert!(events.iter().any(|e| matches!(
        e,
        PoolEvent::CircuitRetired { circuit_id, .. } if *circuit_id == first
    )));
    // Its number is not used again.
    let third = pool.acquire_circuit(&mut monitor, &WORKS, at(0), &mut events).unwrap();
    assert!(third > first);
}

#[test]
fn test_circuit_pool_empty_build_on_demand() {
    let config = CircuitPoolConfig {
        min_pool_size: 0,
        max_pool_size: 5,
        pre_build_count: 0,
        build_timeout: Duration::from_secs(5),
        ..CircuitPoolConfig::default()
    };

    let mut monitor = CircuitHealthMonitor::new();
    let mut pool = CircuitPool::new(config);
    let mut events = Vec::new();
    pool.initialize(&mut monitor, &WORKS, at(0), &mut events).unwrap();

    // Pool is empty, but acquire should build on demand
    let circuit_id = pool.acquire_circuit(&mut monitor, &WORKS, at(0), &mut events).unwrap();
    assert!(circuit_id > 0);
}

#[test]
fn test_pool_statistics() {
    let stats = PoolStatistics {
        total_circuits: 10,
        building_circuits: 2,
        ready_circuits: 5,
        in_use_circuits: 2,
        retiring_circuits: 1,
        available_in_queue: 5,
        total_bytes_transferred: 1024000,
        total_circuit_uses: 100,
    };

    assert_eq!(stats.total_circuits, 10);
    assert_eq!(stats.total_bytes_transferred, 1024000);
}

#[test]
fn builds_that_fail_leave_nothing_behind() {
    let mut monitor = CircuitHealthMonitor::new();
    let mut pool = CircuitPool::new(pool_config());
    let mut events = Vec::new();
    let e = pool.build_circuit(&mut monitor, &FAILS, at(0), &mut events).unwrap_err();
    assert!(e.to_string().contains("Mock failure"));
    assert_eq!(pool.get_statistics().total_circuits, 0);
    assert!(matches!(events[0], PoolEvent::CircuitBuilding { .. }));
    assert!(matches!(events[1], PoolEvent::CircuitBuildFailed { .. }));
    assert!(pool.acquire_circuit(&mut monitor, &FAILS, at(0), &mut events).is_err());
}

#[test]
fn a_build_can_time_out() {
    let mut monitor = CircuitHealthMonitor::new();
    let mut pool = CircuitPool::new(pool_config());
    let (id, _) = pool.begin_build(&mut monitor, at(0));
    let (r, event) = pool.finish_build(&mut monitor, id, BuildOutcome::TimedOut, at(5000));
    assert!(matches!(r, Err(PoolError::BuildTimeout)));
    assert!(matches!(event, PoolEvent::CircuitBuildFailed { .. }));
    assert!(pool.get_circuit(id).is_none());
}

#[test]
fn the_pool_has_a_capacity() {
    let mut monitor = CircuitHealthMonitor::new();
    let mut pool = CircuitPool::new(CircuitPoolConfig { max_pool_size: 2, ..pool_config() });
    let mut events = Vec::new();
    pool.build_circuit(&mut monitor, &WORKS, at(0), &mut events).unwrap();
    pool.build_circuit(&mut monitor, &WORKS, at(0), &mut events).unwrap();
    assert!(matches!(
        pool.build_circuit(&mut monitor, &WORKS, at(0), &mut events),
        Err(PoolError::PoolAtCapacity)
    ));
}

#[test]
fn worn_out_circuits_are_retired_on_the_way_to_a_fresh_one() {
    let mut monitor = CircuitHealthMonitor::new();
    let mut pool = CircuitPool::new(CircuitPoolConfig { min_pool_size: 0, ..pool_config() });
    let mut events = Vec::new();
    pool.initialize(&mut monitor, &WORKS, at(0), &mut events).unwrap();
    assert_eq!(pool.get_statistics().ready_circuits, 2);
    for _ in 0..3 {
        monitor.record_failure(1, FailureType::Timeout, at(1));
    }
    let id = pool.acquire_circuit(&mut monitor, &WORKS, at(2), &mut events).unwrap();
    assert_eq!(id, 2);
    assert!(pool.get_circuit(1).is_none());
    assert!(events.iter().any(|e| matches!(
        e,
        PoolEvent::CircuitRetired { circuit_id: 1, reason: RetireReason::HealthCheck }
    )));
}

#[test]
fn heavy_use_retires_a_circuit() {
    let config = CircuitPoolConfig { max_bytes_transferred: 100, min_pool_size: 0, ..pool_config() };
    let mut monitor = CircuitHealthMonitor::new();
    let mut pool = CircuitPool::new(config);
    let mut events = Vec::new();
    let id = pool.acquire_circuit(&mut monitor, &WORKS, at(0), &mut events).unwrap();
    pool.update_circuit_usage(&mut monitor, &WORKS, id, 99, at(0), &mut events).unwrap();
    assert!(pool.get_circuit(id).is_some());
    pool.update_circuit_usage(&mut monitor, &WORKS, id, 1, at(0), &mut events).unwrap();
    assert!(pool.get_circuit(id).is_none());
    assert!(matches!(
        pool.retire_circuit(&mut monitor, &WORKS, id, RetireReason::Explicit, at(0), &mut events),
        Err(PoolError::CircuitNotFound(_))
    ));
}

#[test]
fn refills_are_counted() {
    let mut refill = Refill::new(3);
    refill.record(true);
    refill.record(false);
    refill.record(true);
    match refill.event() {
        Some(PoolEvent::PoolRefilled { count }) => assert_eq!(count, 2),
        _ => unreachable!(),
    }
    let mut refill = Refill::new(1);
    refill.record(false);
    assert!(refill.event().is_none());
    let mut monitor = CircuitHealthMonitor::new();
    let mut pool = CircuitPool::new(pool_config());
    assert_eq!(pool.refill_needed(), 2);
    let id = pool.begin_background_build(&mut monitor, at(0));
    let event = pool.finish_background_build(&mut monitor, id, Some(vec!["r".to_string()]), at(1));
    assert!(matches!(event, Some(PoolEvent::CircuitReady { .. })));
    assert_eq!(pool.refill_needed(), 1);
}

// Rotation

#[test]
fn test_rotation_trigger_display() {
    assert_eq!(RotationTrigger::TimeBased.to_string(), "time-based");
    assert_eq!(RotationTrigger::Emergency.to_string(), "emergency");
}

#[test]
fn test_rotation_info_new() {
    let policy = RotationPolicy::default();
    let info = RotationInfo::new(1, &policy, policy.rotation_interval, at(0));

    assert_eq!(info.circuit_id, 1);
    assert_eq!(info.rotation_count, 0);
    assert!(!info.rotation_in_progress);
    assert!(info.rotate_at > info.created_at);
}

#[test]
fn test_rotation_info_is_due() {
    let policy = RotationPolicy { rotation_interval: millis(50), ..RotationPolicy::default() };
    let mut info = RotationInfo::new(1, &policy, policy.rotation_interval, at(2000));

    // Should not be due immediately
    assert!(!info.is_rotation_due(at(2000)));

    // Set rotation time to a second ago
    info.rotate_at = at(1000);
    assert!(info.is_rotation_due(at(2000)));

    // Should not be due if rotation in progress
    info.rotation_in_progress = true;
    assert!(!info.is_rotation_due(at(2000)));
}

#[test]
fn test_rotation_info_age() {
    let policy = RotationPolicy::default();
    let info = RotationInfo::new(1, &policy, policy.rotation_interval, at(0));

    // Age should be very small
    assert!(info.age(at(1)).nanos < Duration::from_secs(1).nanos);
}

#[test]
fn test_rotation_policy_default() {
    let policy = RotationPolicy::default();

    assert!(policy.enable_time_rotation);
    assert!(policy.enable_usage_rotation);
    assert!(policy.enable_connection_rotation);
    assert!(policy.enable_health_rotation);
    assert_eq!(policy.health_score_threshold, 50);
}

#[test]
fn test_add_jitter() {
    let base = Duration::from_secs(60);

    // With 0% jitter, should be same
    let no_jitter = add_jitter(base, 0, Duration::from_secs(61));
    assert_eq!(no_jitter, base);

    // With jitter, should be >= base
    for draw in [0.0, 0.25, 0.999_999] {
        let factor = 1.0 + draw * 10.0 / 100.0;
        let lengthened = Duration { nanos: (base.nanos as f64 * factor) as u64 };
        let with_jitter = add_jitter(base, 10, lengthened);
        assert!(with_jitter >= base);
        assert!(with_jitter <= Duration::from_secs(66));
        assert_eq!(with_jitter, lengthened);
    }
    assert_eq!(add_jitter(base, 10, Duration::from_secs(70)), Duration::from_secs(66));
    assert_eq!(add_jitter(base, 10, Duration::from_secs(50)), base);
}

#[test]
fn test_rotation_statistics() {
    let stats = RotationStatistics {
        total_circuits: 10,
        pending_rotations: 2,
        in_progress_rotations: 1,
        total_rotations_completed: 50,
    };

    assert_eq!(stats.total_circuits, 10);
    assert_eq!(stats.pending_rotations, 2);
}

#[test]
fn a_circuit_is_rotated_when_its_time_has_come() {
    let policy = RotationPolicy {
        rotation_interval: Duration::from_secs(10),
        min_circuit_lifetime: Duration::from_secs(5),
        ..RotationPolicy::default()
    };
    let mut rotator = CircuitRotator::new(policy);
    let mut monitor = CircuitHealthMonitor::new();
    let mut pool = CircuitPool::new(pool_config());
    let (mut pool_events, mut events) = (Vec::new(), Vec::new());
    pool.initialize(&mut monitor, &WORKS, at(0), &mut pool_events).unwrap();
    let id = pool.acquire_circuit(&mut monitor, &WORKS, at(0), &mut pool_events).unwrap();
    rotator.register_circuit(id, policy.rotation_interval, at(0));
    assert_eq!(rotator.should_rotate(&monitor, id, at(4_000)), None);
    assert_eq!(rotator.should_rotate(&monitor, id, at(9_000)), None);
    assert_eq!(rotator.should_rotate(&monitor, id, at(10_000)), Some(RotationTrigger::TimeBased));
    assert_eq!(rotator.circuits_due(at(10_000)), vec![id]);
    assert_eq!(
        rotator.get_circuits_needing_rotation(&monitor, at(10_000)),
        vec![(id, RotationTrigger::TimeBased)]
    );
    let new = rotator
        .rotate_circuit(
            &mut pool,
            &mut monitor,
            &WORKS,
            id,
            RotationTrigger::TimeBased,
            policy.rotation_interval,
            at(10_000),
            &mut pool_events,
            &mut events,
        )
        .unwrap();
    assert_ne!(new, id);
    assert!(pool.get_circuit(id).is_none());
    assert!(rotator.get_rotation_info(id).is_none());
    assert!(rotator.get_rotation_info(new).is_some());
    assert!(matches!(events[0], RotationEvent::RotationStarted { .. }));
    assert!(events.iter().any(|e| matches!(
        e,
        RotationEvent::RotationCompleted { old_circuit_id, new_circuit_id, .. }
            if *old_circuit_id == id && *new_circuit_id == new
    )));
}

#[test]
fn a_rotation_in_progress_is_not_started_again() {
    let mut rotator = CircuitRotator::new(RotationPolicy::default());
    rotator.register_circuit(1, Duration::from_secs(1), at(0));
    assert!(rotator.begin_rotation(1, RotationTrigger::Manual).is_ok());
    assert!(matches!(
        rotator.begin_rotation(1, RotationTrigger::Manual),
        Err(RotationError::RotationInProgress)
    ));
    let (e, event) = rotator.fail_rotation(1, RotationTrigger::Manual, "no path".to_string());
    assert!(e.to_string().contains("no path"));
    assert!(matches!(event, RotationEvent::RotationFailed { .. }));
    assert!(rotator.begin_rotation(1, RotationTrigger::Manual).is_ok());
    rotator.unregister_circuit(1);
    assert!(rotator.get_rotation_info(1).is_none());
}

#[test]
fn unhealthy_circuits_are_rotated() {
    let mut rotator = CircuitRotator::new(RotationPolicy::default());
    let mut monitor = CircuitHealthMonitor::new();
    rotator.register_circuit(1, Duration::from_secs(600), at(0));
    monitor.register_circuit(1, at(0));
    for _ in 0..3 {
        monitor.record_failure(1, FailureType::Timeout, at(400_000));
    }
    // The score has fallen to twenty-five.
    assert_eq!(
        rotator.should_rotate(&monitor, 1, at(400_000)),
        Some(RotationTrigger::HealthBased)
    );
    let stats = rotator.get_statistics(at(400_000));
    assert_eq!((stats.total_circuits, stats.in_progress_rotations), (1, 0));
}

// Manager

fn manager_config() -> CircuitManagerConfig {
    CircuitManagerConfig {
        pool_config: pool_config(),
        health_config: HealthMonitorConfig::default(),
        rotation_policy: RotationPolicy::default(),
        max_concurrent_circuits: 10,
        circuit_timeout: Duration::from_secs(30),
        enable_rotation: true,
        enable_health_monitoring: true,
        enable_pool_management: true,
    }
}

fn started() -> CircuitManager {
    let mut manager = CircuitManager::new(manager_config(), at(0));
    manager.initialize(&WORKS, at(0), &mut Vec::new()).unwrap();
    manager
}

#[test]
fn test_circuit_manager_initialization() {
    let mut manager = CircuitManager::new(manager_config(), at(0));

    assert!(manager.initialize(&WORKS, at(0), &mut Vec::new()).is_ok());
}

#[test]
fn test_circuit_acquire_release() {
    let mut manager = started();
    let (mut pool_events, mut events) = (Vec::new(), Vec::new());

    // Acquire a circuit
    let handle = manager
        .acquire_circuit(&WORKS, "test", None, at(1), &mut pool_events, &mut events)
        .unwrap();
    assert!(handle.id > 0);
    assert_eq!(handle.health_score, 100);

    // Release it
    manager.release_circuit(&WORKS, handle.id, at(2), &mut pool_events, &mut events).unwrap();

    // Check stats
    let stats = manager.get_statistics(at(3));
    assert_eq!(stats.total_circuits_created, 1);
}

#[test]
fn test_circuit_health_monitoring() {
    let mut manager = started();
    let (mut pool_events, mut events) = (Vec::new(), Vec::new());

    let handle = manager
        .acquire_circuit(&WORKS, "test", None, at(1), &mut pool_events, &mut events)
        .unwrap();

    // Report success
    manager
        .report_success(&WORKS, handle.id, millis(100), 1024, average(100.0), at(2), &mut pool_events)
        .unwrap();

    // Check health
    let health = manager.get_circuit_health(handle.id);
    assert!(health.is_some());

    // Report 3 failures: score = 100 - (3*15 consecutive) - (3*10 recent) = 25 → Unhealthy
    // Using fewer than 4 to avoid HealthStatus::Failed (score=0) which auto-closes the circuit
    for _ in 0..3 {
        manager
            .report_failure(
                &WORKS,
                handle.id,
                FailureType::Timeout,
                at(3),
                &mut pool_events,
                &mut events,
            )
            .unwrap();
    }

    // Health should be degraded (Unhealthy, not Healthy)
    let health = manager.get_circuit_health(handle.id).unwrap();
    assert_ne!(health, HealthStatus::Healthy);

    manager.release_circuit(&WORKS, handle.id, at(4), &mut pool_events, &mut events).unwrap();
}

#[test]
fn test_circuit_manager_statistics() {
    let mut manager = started();
    let (mut pool_events, mut events) = (Vec::new(), Vec::new());

    // Create some circuits
    let handle1 = manager
        .acquire_circuit(&WORKS, "test1", None, at(1), &mut pool_events, &mut events)
        .unwrap();
    let handle2 = manager
        .acquire_circuit(&WORKS, "test2", None, at(1), &mut pool_events, &mut events)
        .unwrap();

    // Report activity
    manager
        .report_success(&WORKS, handle1.id, millis(100), 1000, average(100.0), at(2), &mut pool_events)
        .unwrap();
    manager
        .report_success(&WORKS, handle2.id, millis(200), 2000, average(200.0), at(2), &mut pool_events)
        .unwrap();

    let stats = manager.get_statistics(at(3));
    assert_eq!(stats.total_circuits_created, 2);
    assert_eq!(stats.pool_stats.in_use_circuits, 2);
    assert!(stats.health_stats.total_circuits >= 4); // At least 2 in-use + 2 pool circuits

    manager.release_circuit(&WORKS, handle1.id, at(4), &mut pool_events, &mut events).unwrap();
    manager.release_circuit(&WORKS, handle2.id, at(4), &mut pool_events, &mut events).unwrap();
}

#[test]
fn test_close_circuit() {
    let mut manager = started();
    let (mut pool_events, mut events) = (Vec::new(), Vec::new());

    let handle = manager
        .acquire_circuit(&WORKS, "test", None, at(1), &mut pool_events, &mut events)
        .unwrap();

    // Close the circuit
    manager
        .close_circuit(&WORKS, handle.id, "Test close", at(2), &mut pool_events, &mut events)
        .unwrap();

    let stats = manager.get_statistics(at(3));
    assert_eq!(stats.total_circuits_destroyed, 1);
}

#[test]
fn test_circuit_manager_config_default() {
    let config = CircuitManagerConfig::default();

    assert!(config.enable_rotation);
    assert!(config.enable_health_monitoring);
    assert!(config.enable_pool_management);
    assert_eq!(config.max_concurrent_circuits, 100);
}

#[test]
fn test_circuit_handle() {
    let handle = CircuitHandle {
        id: 1,
        path: vec!["r1".to_string(), "r2".to_string()],
        created_at: at(0),
        health_score: 95,
    };

    assert_eq!(handle.id, 1);
    assert_eq!(handle.path.len(), 2);
    assert_eq!(handle.health_score, 95);
}

#[test]
fn a_failed_circuit_is_closed() {
    let mut manager = started();
    let (mut pool_events, mut events) = (Vec::new(), Vec::new());
    let handle = manager
        .acquire_circuit(&WORKS, "test", None, at(1), &mut pool_events, &mut events)
        .unwrap();
    for _ in 0..4 {
        manager
            .report_failure(
                &WORKS,
                handle.id,
                FailureType::Timeout,
                at(2),
                &mut pool_events,
                &mut events,
            )
            .unwrap();
    }
    assert!(!manager.active_circuits.contains_key(&handle.id));
    assert_eq!(manager.get_statistics(at(3)).total_circuits_destroyed, 1);
    assert_eq!(manager.get_circuit_health(handle.id), None);
}

#[test]
fn test_circuit_manager_builder() {
    let mut manager = CircuitManagerBuilder::new()
        .max_concurrent(50)
        .circuit_timeout(Duration::from_secs(30))
        .build(at(0));

    assert_eq!(manager.config.max_concurrent_circuits, 50);
    assert!(manager.initialize(&WORKS, at(0), &mut Vec::new()).is_ok());
}

#[test]
fn test_create_circuit_manager() {
    let mut manager = create_circuit_manager(at(0));
    assert!(manager.initialize(&WORKS, at(0), &mut Vec::new()).is_ok());
}

#[test]
fn test_create_circuit_manager_with_pool() {
    let mut manager = create_circuit_manager_with_pool(3, 10, at(0));
    assert!(manager.initialize(&WORKS, at(0), &mut Vec::new()).is_ok());

    let stats = manager.get_statistics(at(1));
    assert!(stats.pool_stats.ready_circuits >= 3);
    assert!(manager.has_available_circuits());
}

#[test]
fn switches_of_the_builder() {
    let config = CircuitManagerBuilder::with_config(manager_config())
        .pool_config(CircuitPoolConfig::default())
        .health_config(HealthMonitorConfig::default())
        .rotation_policy(RotationPolicy::default())
        .disable_rotation()
        .disable_health_monitoring()
        .disable_pool_management()
        .config;
    assert!(!config.enable_rotation);
    assert!(!config.enable_health_monitoring);
    assert!(!config.enable_pool_management);
    assert_eq!(config.max_concurrent_circuits, 10);
}

// Rounds of the background tasks

#[test]
fn a_background_refill_fills_the_queue_up() {
    let mut monitor = CircuitHealthMonitor::new();
    let config = CircuitPoolConfig {
        min_pool_size: 3,
        max_pool_size: 10,
        max_concurrent_builds: 2,
        ..CircuitPoolConfig::default()
    };
    let mut pool = CircuitPool::new(config);
    let mut events = Vec::new();
    pool.refill_in_background(&mut monitor, &WORKS, at(0), &mut events);
    assert_eq!(pool.available_queue, vec![1, 2, 3]);
    assert_eq!(pool.get_circuit(2).unwrap().state, PoolCircuitState::Ready);
    assert_eq!(pool.get_circuit(2).unwrap().path[0], "relay_2_1");
    assert_eq!(events.len(), 3);
    assert!(matches!(events[0], PoolEvent::CircuitReady { circuit_id: 1 }));

    // A full queue is left alone.
    pool.refill_in_background(&mut monitor, &WORKS, at(1), &mut events);
    assert_eq!(events.len(), 3);
}

#[test]
fn a_background_refill_goes_on_after_a_failure() {
    let mut monitor = CircuitHealthMonitor::new();
    let config = CircuitPoolConfig {
        min_pool_size: 3,
        max_pool_size: 10,
        ..CircuitPoolConfig::default()
    };
    let mut pool = CircuitPool::new(config);
    let mut events = Vec::new();
    pool.refill_in_background(&mut monitor, &FAILS, at(0), &mut events);
    assert!(events.is_empty());
    assert_eq!(pool.next_id, 4);
    assert!(monitor.metrics.is_empty());

    let mut small = CircuitPool::new(CircuitPoolConfig { max_pool_size: 2, ..config });
    small.refill_in_background(&mut monitor, &WORKS, at(0), &mut events);
    assert_eq!(small.available_queue, vec![1, 2]);

    let mut closed = CircuitPool::new(CircuitPoolConfig { max_concurrent_builds: 0, ..config });
    closed.refill_in_background(&mut monitor, &WORKS, at(0), &mut events);
    assert_eq!(closed.next_id, 1);
}

#[test]
fn every_circuit_that_is_due_is_rotated() {
    let policy = RotationPolicy {
        rotation_interval: Duration::from_secs(10),
        min_circuit_lifetime: Duration::from_secs(5),
        ..RotationPolicy::default()
    };
    let mut rotator = CircuitRotator::new(policy);
    let mut monitor = CircuitHealthMonitor::new();
    let mut pool = CircuitPool::new(pool_config());
    let (mut pool_events, mut events) = (Vec::new(), Vec::new());
    pool.initialize(&mut monitor, &WORKS, at(0), &mut pool_events).unwrap();
    let first = pool.acquire_circuit(&mut monitor, &WORKS, at(0), &mut pool_events).unwrap();
    let second = pool.acquire_circuit(&mut monitor, &WORKS, at(0), &mut pool_events).unwrap();
    rotator.register_circuit(first, policy.rotation_interval, at(0));
    rotator.register_circuit(second, policy.rotation_interval, at(6_000));
    let jitter = || millis(10_500);
    let none = rotator.run_rotations(
        &mut pool,
        &mut monitor,
        &WORKS,
        jitter,
        at(9_000),
        &mut pool_events,
        &mut events,
    );
    assert!(none.is_empty());
    let got = rotator.run_rotations(
        &mut pool,
        &mut monitor,
        &WORKS,
        jitter,
        at(20_000),
        &mut pool_events,
        &mut events,
    );
    assert_eq!(got.len(), 2);
    assert_eq!(events.len(), 4);
    assert!(pool.get_circuit(first).is_none());
    assert!(pool.get_circuit(second).is_none());
    for new in got {
        let new = new.unwrap();
        assert_eq!(pool.get_circuit(new).unwrap().state, PoolCircuitState::InUse);
        let info = rotator.get_rotation_info(new).unwrap();
        assert_eq!(info.rotate_at, at(30_500));
    }
}

#[test]
fn a_rotation_without_a_circuit_comes_to_rest() {
    let policy = RotationPolicy {
        rotation_interval: Duration::from_secs(10),
        min_circuit_lifetime: Duration::from_secs(5),
        ..RotationPolicy::default()
    };
    let mut rotator = CircuitRotator::new(policy);
    let mut monitor = CircuitHealthMonitor::new();
    let mut pool = CircuitPool::new(pool_config());
    let (mut pool_events, mut events) = (Vec::new(), Vec::new());
    rotator.register_circuit(7, policy.rotation_interval, at(0));
    let got = rotator.run_rotations(
        &mut pool,
        &mut monitor,
        &FAILS,
        || Duration::from_secs(20),
        at(20_000),
        &mut pool_events,
        &mut events,
    );
    assert_eq!(got, vec![None]);
    assert!(!rotator.get_rotation_info(7).unwrap().rotation_in_progress);
    assert!(matches!(
        &events[1],
        RotationEvent::RotationFailed { circuit_id: 7, error, .. } if error == "Pool is empty"
    ));
    assert!(pool_events.iter().any(|e| matches!(e, PoolEvent::PoolEmpty)));
}

#[test]
fn stale_circuits_are_released_in_one_round() {
    let config = CircuitManagerConfig::default();
    let mut manager = CircuitManager::new(config, at(0));
    let (mut pool_events, mut events) = (Vec::new(), Vec::new());
    manager.initialize(&WORKS, at(0), &mut pool_events).unwrap();
    let old = manager
        .acquire_circuit(&WORKS, "old", None, at(0), &mut pool_events, &mut events)
        .unwrap();
    let young = manager
        .acquire_circuit(&WORKS, "young", None, at(200_000), &mut pool_events, &mut events)
        .unwrap();
    manager.release_all_stale(&WORKS, at(301_000), &mut pool_events);
    assert!(!manager.active_circuits.contains_key(&old.id));
    assert!(manager.active_circuits.contains_key(&young.id));
    assert!(manager.get_circuit_health(old.id).is_none());
    assert!(manager.get_circuit_health(young.id).is_some());
}

#[test]
fn worn_circuits_are_not_handed_out() {
    let mut monitor = CircuitHealthMonitor::new();
    let mut pool = CircuitPool::new(pool_config());
    let mut events = Vec::new();
    pool.initialize(&mut monitor, &WORKS, at(0), &mut events).unwrap();
    let front = pool.available_queue[0];
    for _ in 0..3 {
        monitor.record_failure(front, FailureType::Timeout, at(1));
    }
    let id = pool.acquire_circuit(&mut monitor, &WORKS, at(2), &mut events).unwrap();
    assert_ne!(id, front);
    assert!(pool.get_circuit(front).is_none());
    assert!(!pool.available_queue.contains(&front));
    assert!(!pool.available_queue.contains(&id));
    assert!(monitor.get_metrics(front).is_none());
}

#[test]
fn the_next_rotation_is_scheduled() {
    let policy = RotationPolicy {
        rotation_interval: Duration::from_secs(10),
        randomize_rotation: false,
        ..RotationPolicy::default()
    };
    let mut info = RotationInfo::new(1, &policy, Duration::from_secs(99), at(0));
    assert_eq!(info.time_until_rotation(at(4_000)), Duration::from_secs(6));
    assert_eq!(info.time_until_rotation(at(11_000)), Duration::from_secs(0));
    info.rotation_in_progress = true;
    info.schedule_next(&policy, Duration::from_secs(99), at(12_000));
    assert_eq!(info.rotate_at, at(22_000));
    assert_eq!(info.rotation_count, 1);
    assert!(!info.rotation_in_progress);

    let jittery = RotationPolicy { randomize_rotation: true, ..policy };
    info.schedule_next(&jittery, millis(10_400), at(12_000));
    assert_eq!(info.rotate_at, at(22_400));
    assert_eq!(info.rotation_count, 2);

    // Jitter neither shortens the interval nor goes beyond its percentage.
    info.schedule_next(&jittery, Duration::from_secs(1), at(12_000));
    assert_eq!(info.rotate_at, at(22_000));
    info.schedule_next(&jittery, Duration::from_secs(99), at(12_000));
    assert_eq!(info.rotate_at, at(23_000));
    let steady = RotationPolicy { rotation_jitter_percent: 0, ..jittery };
    info.schedule_next(&steady, Duration::from_secs(99), at(12_000));
    assert_eq!(info.rotate_at, at(22_000));
    let fresh = RotationInfo::new(1, &steady, Duration::from_secs(99), at(5_000));
    assert_eq!((fresh.created_at, fresh.rotate_at), (at(5_000), at(15_000)));
}

#[test]
fn unhealthy_circuits_are_retired_in_one_round() {
    let mut manager = CircuitManager::new(CircuitManagerConfig::default(), at(0));
    let (mut pool_events, mut events) = (Vec::new(), Vec::new());
    manager.initialize(&WORKS, at(0), &mut pool_events).unwrap();
    let ill = manager
        .acquire_circuit(&WORKS, "ill", None, at(0), &mut pool_events, &mut events)
        .unwrap();
    let well = manager
        .acquire_circuit(&WORKS, "well", None, at(0), &mut pool_events, &mut events)
        .unwrap();
    for _ in 0..3 {
        manager.health_monitor.record_failure(ill.id, FailureType::Timeout, at(1));
    }
    events.clear();
    manager.retire_unhealthy(&WORKS, at(2), &mut pool_events, &mut events);
    assert!(!manager.active_circuits.contains_key(&ill.id));
    assert!(manager.active_circuits.contains_key(&well.id));
    assert!(manager.pool.get_circuit(ill.id).is_none());
    assert!(manager.pool.get_circuit(well.id).is_some());
    assert_eq!(events.len(), 1);
    assert!(matches!(
        events[0],
        CircuitManagerEvent::HealthStatusChanged { circuit_id, new_status: HealthStatus::Unhealthy }
            if circuit_id == ill.id
    ));
}

#[test]
fn circuits_built_on_demand_are_not_handed_out_twice() {
    let config = CircuitPoolConfig {
        min_pool_size: 0,
        pre_build_count: 0,
        max_pool_size: 2,
        ..CircuitPoolConfig::default()
    };
    let mut monitor = CircuitHealthMonitor::new();
    let mut pool = CircuitPool::new(config);
    let mut events = Vec::new();
    let first = pool.acquire_circuit(&mut monitor, &WORKS, at(0), &mut events).unwrap();
    assert!(pool.available_queue.is_empty());
    let second = pool.acquire_circuit(&mut monitor, &WORKS, at(0), &mut events).unwrap();
    assert_ne!(first, second);
    assert_eq!(pool.get_circuit(second).unwrap().state, PoolCircuitState::InUse);
    assert_eq!(pool.get_circuit(second).unwrap().use_count, 1);
    // Two are as many as there may be.
    let refused = pool.acquire_circuit(&mut monitor, &WORKS, at(0), &mut events);
    assert!(matches!(refused, Err(PoolError::PoolEmpty)));
    assert_eq!(pool.next_id, 3);
    pool.release_circuit(&mut monitor, &WORKS, first, at(1), &mut events).unwrap();
    // A second release of the same circuit does not queue it twice.
    pool.release_circuit(&mut monitor, &WORKS, first, at(1), &mut events).unwrap();
    assert_eq!(pool.available_queue, vec![first]);
    assert_eq!(pool.acquire_circuit(&mut monitor, &WORKS, at(2), &mut events).unwrap(), first);
}

#[test]
fn circuits_that_are_being_built_are_not_queued_by_a_release() {
    let mut monitor = CircuitHealthMonitor::new();
    let mut pool = CircuitPool::new(pool_config());
    let (id, _) = pool.begin_build(&mut monitor, at(0));
    pool.begin_release(id, at(0)).unwrap();
    assert!(pool.available_queue.is_empty());
    let path = vec!["relay".to_string()];
    let (built, _) = pool.finish_build(&mut monitor, id, BuildOutcome::Built(path), at(0));
    assert_eq!(built.unwrap(), id);
    assert_eq!(pool.available_queue, vec![id]);
}

#[test]
fn an_acquisition_refills_the_pool() {
    let config = CircuitPoolConfig {
        min_pool_size: 2,
        max_pool_size: 5,
        pre_build_count: 2,
        ..CircuitPoolConfig::default()
    };
    let mut monitor = CircuitHealthMonitor::new();
    let mut pool = CircuitPool::new(config);
    let mut events = Vec::new();
    pool.initialize(&mut monitor, &WORKS, at(0), &mut events).unwrap();
    events.clear();
    let id = pool.acquire_circuit(&mut monitor, &WORKS, at(0), &mut events).unwrap();
    let stats = pool.get_statistics();
    assert_eq!((stats.in_use_circuits, stats.ready_circuits), (1, 2));
    assert_eq!(events.len(), 4);
    assert!(matches!(events[0], PoolEvent::CircuitAcquired { circuit_id: 1 }));
    assert!(matches!(events[1], PoolEvent::CircuitBuilding { circuit_id: 3 }));
    assert!(matches!(events[2], PoolEvent::CircuitReady { circuit_id: 3 }));
    assert!(matches!(events[3], PoolEvent::PoolRefilled { count: 1 }));
    pool.release_circuit(&mut monitor, &WORKS, id, at(1), &mut events).unwrap();
    let stats = pool.get_statistics();
    assert_eq!((stats.in_use_circuits, stats.ready_circuits), (0, 3));
    assert_eq!((stats.total_circuits, stats.total_circuit_uses), (3, 1));

    // A retirement refills the pool as well, as far as the builder allows.
    events.clear();
    for retired in [1, 2] {
        let reason = RetireReason::Explicit;
        pool.retire_circuit(&mut monitor, &FAILS, retired, reason, at(2), &mut events).unwrap();
    }
    assert_eq!(pool.available_queue, vec![3]);
    assert!(matches!(events[0], PoolEvent::CircuitRetired { circuit_id: 1, .. }));
    assert!(matches!(events[1], PoolEvent::CircuitRetired { circuit_id: 2, .. }));
    assert!(matches!(events[2], PoolEvent::CircuitBuilding { circuit_id: 4 }));
    assert!(matches!(events[3], PoolEvent::CircuitBuildFailed { circuit_id: 4, .. }));
    assert_eq!(events.len(), 4);
}

#[test]
fn circuits_that_are_worn_at_once_are_handed_out_without_refills() {
    // A monitor for which every circuit needs rotation.
    let strict = HealthMonitorConfig {
        max_requests_before_rotation: 0,
        ..HealthMonitorConfig::default()
    };
    let mut monitor = CircuitHealthMonitor::with_config(strict);
    let config = CircuitPoolConfig {
        min_pool_size: 0,
        pre_build_count: 1,
        ..CircuitPoolConfig::default()
    };
    let mut pool = CircuitPool::new(config);
    let mut events = Vec::new();
    pool.initialize(&mut monitor, &WORKS, at(0), &mut events).unwrap();
    let id = pool.acquire_circuit(&mut monitor, &WORKS, at(0), &mut events).unwrap();
    assert_eq!(id, 2);
    assert!(pool.get_circuit(1).is_none());
}

#[test]
fn only_so_many_circuits_are_active() {
    let config = CircuitManagerConfig {
        max_concurrent_circuits: 1,
        ..CircuitManagerConfig::default()
    };
    let mut manager = CircuitManager::new(config, at(0));
    let (mut pool_events, mut events) = (Vec::new(), Vec::new());
    manager.initialize(&WORKS, at(0), &mut pool_events).unwrap();
    let handle = manager
        .acquire_circuit(&WORKS, "one", None, at(0), &mut pool_events, &mut events)
        .unwrap();
    assert!(manager.admit_circuit().is_err());
    assert!(manager.admit_replacement(handle.id).is_ok());
    assert!(manager.admit_replacement(handle.id + 100).is_err());
    let refused =
        manager.acquire_circuit(&WORKS, "two", None, at(0), &mut pool_events, &mut events);
    assert!(refused.unwrap_err().to_string().contains("Too many concurrent circuits"));
    assert_eq!(events.len(), 1);
    // A rotation puts one in the place of another.
    let trigger = RotationTrigger::Manual;
    let new = manager
        .rotate_circuit(&WORKS, handle.id, trigger, at(1), &mut pool_events, &mut events)
        .unwrap();
    assert_eq!(manager.active_circuits.len(), 1);
    assert!(manager
        .rotate_circuit(&WORKS, handle.id, trigger, at(1), &mut pool_events, &mut events)
        .is_err());
    manager.release_circuit(&WORKS, new.id, at(2), &mut pool_events, &mut events).unwrap();
    assert!(manager.admit_circuit().is_ok());
}

#[test]
fn circuits_are_rotated_by_use() {
    let policy = RotationPolicy {
        bytes_threshold: 1_000,
        connection_threshold: 3,
        min_circuit_lifetime: Duration::from_secs(5),
        ..RotationPolicy::default()
    };
    let mut rotator = CircuitRotator::new(policy);
    let mut monitor = CircuitHealthMonitor::new();
    rotator.register_circuit(1, Duration::from_secs(600), at(0));
    rotator.register_circuit(2, Duration::from_secs(600), at(0));
    monitor.record_success(1, millis(10), 999, average(10.0), at(1));
    assert_eq!(rotator.should_rotate(&monitor, 1, at(6_000)), None);
    monitor.record_success(1, millis(10), 1, average(10.0), at(2));
    assert_eq!(rotator.should_rotate(&monitor, 1, at(6_000)), Some(RotationTrigger::UsageBased));
    for _ in 0..3 {
        monitor.record_success(2, millis(10), 1, average(10.0), at(3));
    }
    assert_eq!(
        rotator.should_rotate(&monitor, 2, at(6_000)),
        Some(RotationTrigger::ConnectionBased)
    );
    let mut listed = rotator.get_circuits_needing_rotation(&monitor, at(6_000));
    listed.sort_by_key(|entry| entry.0);
    assert_eq!(
        listed,
        vec![(1, RotationTrigger::UsageBased), (2, RotationTrigger::ConnectionBased)]
    );
    // Not too quickly.
    assert!(rotator.get_circuits_needing_rotation(&monitor, at(4_999)).is_empty());

    let mut calm = CircuitRotator::new(RotationPolicy {
        enable_usage_rotation: false,
        enable_connection_rotation: false,
        ..policy
    });
    calm.register_circuit(1, Duration::from_secs(600), at(0));
    calm.register_circuit(2, Duration::from_secs(600), at(0));
    assert_eq!(calm.should_rotate(&monitor, 1, at(6_000)), None);
    assert!(calm.get_circuits_needing_rotation(&monitor, at(6_000)).is_empty());
}

#[test]
fn young_or_rotating_circuits_are_not_listed() {
    let mut rotator = CircuitRotator::new(RotationPolicy::default());
    let mut monitor = CircuitHealthMonitor::new();
    rotator.register_circuit(1, Duration::from_secs(600), at(0));
    monitor.register_circuit(1, at(0));
    for _ in 0..3 {
        monitor.record_failure(1, FailureType::Timeout, at(10_000));
    }
    assert!(rotator.get_circuits_needing_rotation(&monitor, at(59_000)).is_empty());
    assert_eq!(
        rotator.get_circuits_needing_rotation(&monitor, at(60_000)),
        vec![(1, RotationTrigger::HealthBased)]
    );
    rotator.begin_rotation(1, RotationTrigger::HealthBased).unwrap();
    assert!(rotator.get_circuits_needing_rotation(&monitor, at(60_000)).is_empty());
}

#[test]
fn a_pool_is_filled_as_far_as_it_goes() {
    let mut monitor = CircuitHealthMonitor::new();
    let mut events = Vec::new();
    let mut pool = CircuitPool::new(pool_config());
    assert!(pool.initialize(&mut monitor, &WORKS, at(0), &mut events).is_ok());
    assert_eq!(pool.available_queue, vec![1, 2]);
    assert_eq!(pool.get_circuit(1).unwrap().path[2], "relay_1_3");
    assert_eq!(events.len(), 4);

    let small = CircuitPoolConfig { pre_build_count: 3, max_pool_size: 2, ..pool_config() };
    let mut pool = CircuitPool::new(small);
    let mut events = Vec::new();
    let full = pool.initialize(&mut CircuitHealthMonitor::new(), &WORKS, at(0), &mut events);
    assert!(matches!(full, Err(PoolError::PoolAtCapacity)));
    assert_eq!((pool.circuits.len(), pool.next_id, events.len()), (2, 3, 4));
}

#[test]
fn a_manager_tells_why_its_pool_could_not_be_filled() {
    let mut manager = CircuitManager::new(manager_config(), at(0));
    let mut pool_events = Vec::new();
    let failed = manager.initialize(&FAILS, at(0), &mut pool_events).unwrap_err();
    assert_eq!(
        failed.to_string(),
        "Pool initialization failed: Circuit build failed: Circuit build failed: Mock failure"
    );
    assert_eq!(pool_events.len(), 2);
    assert!(matches!(
        &pool_events[1],
        PoolEvent::CircuitBuildFailed { circuit_id: 1, error }
            if error == "Circuit build failed: Mock failure"
    ));
    assert!(manager.pool.circuits.is_empty());

    let pool_config = CircuitPoolConfig { max_pool_size: 0, ..pool_config() };
    let config = CircuitManagerConfig { pool_config, ..manager_config() };
    let mut manager = CircuitManager::new(config, at(0));
    let mut pool_events = Vec::new();
    let full = manager.initialize(&WORKS, at(0), &mut pool_events).unwrap_err();
    assert_eq!(full.to_string(), "Pool initialization failed: Pool is at capacity");
    assert!(pool_events.is_empty());
    assert_eq!(manager.pool.next_id, 1);
}

#[test]
fn a_rotation_hands_out_the_circuit_that_was_built() {
    let mut manager = started();
    let (mut pool_events, mut events) = (Vec::new(), Vec::new());
    let old = manager
        .acquire_circuit(&WORKS, "old", None, at(1), &mut pool_events, &mut events)
        .unwrap();
    let new = manager
        .rotate_circuit(
            &WORKS,
            old.id,
            RotationTrigger::Manual,
            at(2),
            &mut pool_events,
            &mut events,
        )
        .unwrap();
    assert_ne!(new.id, old.id);
    let circuit = manager.pool.get_circuit(new.id).unwrap();
    assert_eq!(new.path, circuit.path);
    assert_eq!(new.path[0], format!("relay_{}_1", new.id));
    assert_eq!(new.created_at, circuit.created_at);
    assert_eq!(new.health_score, 100);
    assert_eq!(manager.active_circuits.get(&new.id).unwrap().path, new.path);
    assert!(!manager.active_circuits.contains_key(&old.id));
}

#[test]
fn a_circuit_that_is_gone_is_not_queued() {
    let mut monitor = CircuitHealthMonitor::new();
    let mut pool = CircuitPool::new(pool_config());
    let (id, _) = pool.begin_build(&mut monitor, at(0));
    pool.begin_retire(&mut monitor, id, RetireReason::Explicit).unwrap();
    let outcome = BuildOutcome::Built(vec!["relay".to_string()]);
    let (built, _) = pool.finish_build(&mut monitor, id, outcome, at(1));
    assert!(matches!(built, Ok(n) if n == id));
    assert!(pool.available_queue.is_empty());
    assert!(pool.get_circuit(id).is_none());
}

#[test]
fn settings_last() {
    let health_config = HealthMonitorConfig {
        max_consecutive_failures: 7,
        ..HealthMonitorConfig::default()
    };
    let config = CircuitManagerConfig { health_config, ..manager_config() };
    let mut manager = CircuitManager::new(config, at(0));
    let (mut pool_events, mut events) = (Vec::new(), Vec::new());
    manager.initialize(&WORKS, at(0), &mut pool_events).unwrap();
    let first = manager
        .acquire_circuit(&WORKS, "one", None, at(0), &mut pool_events, &mut events)
        .unwrap();
    let second = manager
        .acquire_circuit(&WORKS, "two", None, at(1), &mut pool_events, &mut events)
        .unwrap();
    assert_ne!(first.id, second.id);
    manager.release_circuit(&WORKS, first.id, at(2), &mut pool_events, &mut events).unwrap();
    manager
        .close_circuit(&WORKS, second.id, "done", at(3), &mut pool_events, &mut events)
        .unwrap();
    assert_eq!(manager.health_monitor.config, health_config);
    assert_eq!(manager.pool.config, pool_config());
    assert_eq!(manager.config, config);
    assert_eq!(manager.next_stream_id, 1);

    let fresh = create_circuit_manager_with_pool(3, 10, at(5));
    assert_eq!(fresh.health_monitor.config, HealthMonitorConfig::default());
    assert_eq!((fresh.total_created, fresh.total_destroyed, fresh.pool.next_id), (0, 0, 1));
    assert!(fresh.active_circuits.is_empty() && fresh.health_monitor.metrics.is_empty());
}
