//! Circuit Manager Module
//!
//! Central manager for all circuit operations, coordinating:
//! - Circuit pool management
//! - Health monitoring
//! - Circuit rotation
//!
//! As in the pool, an operation that needs a builder is there as steps and as
//! a whole.

use super::health::{
    ranks, CircuitHealthMonitor, CircuitMetrics, FailureType, HealthMonitorConfig,
    HealthStatistics, HealthStatus,
};
use super::pool::{
    CircuitBuilder, CircuitId, CircuitPool, CircuitPoolConfig, PoolCircuit, PoolCircuitState,
    PoolEvent, PoolFailure, PoolStatistics, RetireReason,
};
use super::rotation::{RotationPolicy, RotationStatistics, RotationTrigger};
use super::supply::{
    acquired, at_most, can_number, closed_by, failures_explained, follows, given_back, initialized,
    law_circuits_in_use_are_not_handed_out, lemma_acquisition_keeps, lemma_explained_on,
    lemma_follows_on, lemma_settled_given_back, lemma_settled_retired,
    lemma_settled_without_older, refills_last, retired_and_refilled, retired_if_there,
    retired_in_turn, settled, settled_but_for, supply, told, worn_are_closed, PoolView, Supply,
};
use crate::address::IpAddr;
use crate::maps;
use crate::maps::seen;
use crate::reading::Reading;
use crate::text;
use crate::text::decimal_text;
use crate::time::{elapsed, secs, Duration, Instant};
use std::collections::HashMap;
use vstd::prelude::*;
use vstd::string::*;

verus! {

/// Circuit manager configuration
#[derive(Debug, Clone, Copy, PartialEq, Eq, Structural)]
pub struct CircuitManagerConfig {
    /// Pool configuration
    pub pool_config: CircuitPoolConfig,
    /// Health monitor configuration
    pub health_config: HealthMonitorConfig,
    /// Rotation policy
    pub rotation_policy: RotationPolicy,
    /// Maximum concurrent circuits
    pub max_concurrent_circuits: usize,
    /// Circuit timeout
    pub circuit_timeout: Duration,
    /// Enable automatic rotation
    pub enable_rotation: bool,
    /// Enable health monitoring
    pub enable_health_monitoring: bool,
    /// Enable pool management
    pub enable_pool_management: bool,
}

/// The default configuration: the defaults of the parts, a hundred circuits, a
/// minute of patience, everything on.
pub open spec fn default_manager_config() -> CircuitManagerConfig {
    CircuitManagerConfig {
        pool_config: super::pool::default_pool_config(),
        health_config: super::health::default_health_config(),
        rotation_policy: super::rotation::default_rotation_policy(),
        max_concurrent_circuits: 100,
        circuit_timeout: Duration { nanos: 60_000_000_000 },
        enable_rotation: true,
        enable_health_monitoring: true,
        enable_pool_management: true,
    }
}

impl Default for CircuitManagerConfig {
    fn default() -> (r: CircuitManagerConfig)
        ensures
            r == default_manager_config(),
    {
        CircuitManagerConfig {
            pool_config: CircuitPoolConfig::default(),
            health_config: HealthMonitorConfig::default(),
            rotation_policy: RotationPolicy::default(),
            max_concurrent_circuits: 100,
            circuit_timeout: Duration::from_secs(60),
            enable_rotation: true,
            enable_health_monitoring: true,
            enable_pool_management: true,
        }
    }
}

/// Circuit handle for users
#[derive(Debug, Clone)]
pub struct CircuitHandle {
    /// Circuit ID
    pub id: CircuitId,
    /// Circuit path (relay IDs)
    pub path: Vec<String>,
    /// Creation time
    pub created_at: Instant,
    /// Health score (0-100)
    pub health_score: u8,
}

/// Active circuit information
#[derive(Debug, Clone)]
pub struct ActiveCircuit {
    /// Circuit ID
    pub id: CircuitId,
    /// Associated stream IDs
    pub streams: Vec<u64>,
    /// Creation time
    pub created_at: Instant,
    /// Last activity time
    pub last_activity: Instant,
    /// Total bytes transferred
    pub bytes_transferred: u64,
    /// Total requests made
    pub request_count: u64,
    /// Circuit path
    pub path: Vec<String>,
    /// Whether circuit is closing
    pub is_closing: bool,
}

/// Circuit manager events
#[derive(Debug, Clone)]
pub enum CircuitManagerEvent {
    /// Circuit created and ready
    CircuitReady {
        /// The circuit.
        circuit_id: CircuitId,
    },
    /// Circuit acquired for use
    CircuitAcquired {
        /// The circuit.
        circuit_id: CircuitId,
        /// What it is for.
        purpose: String,
    },
    /// Circuit released
    CircuitReleased {
        /// The circuit.
        circuit_id: CircuitId,
    },
    /// Circuit closed
    CircuitClosed {
        /// The circuit.
        circuit_id: CircuitId,
        /// Why it was closed.
        reason: String,
    },
    /// Circuit rotated
    CircuitRotated {
        /// The circuit that went.
        old_id: CircuitId,
        /// The circuit that came.
        new_id: CircuitId,
        /// What triggered it.
        trigger: RotationTrigger,
    },
    /// Health status changed
    HealthStatusChanged {
        /// The circuit.
        circuit_id: CircuitId,
        /// Its status now.
        new_status: HealthStatus,
    },
    /// Pool refilled
    PoolRefilled {
        /// How many circuits were built.
        count: usize,
    },
    /// All circuits failed
    AllCircuitsFailed,
    /// Circuit manager error
    Error {
        /// What went wrong.
        error: String,
    },
}

/// Circuit manager statistics
#[derive(Debug, Clone, Copy, PartialEq, Eq, Structural)]
pub struct CircuitManagerStatistics {
    /// Pool statistics
    pub pool_stats: PoolStatistics,
    /// Health statistics
    pub health_stats: HealthStatistics,
    /// Rotation statistics
    pub rotation_stats: Option<RotationStatistics>,
    /// Number of active streams
    pub active_streams: usize,
    /// Total circuits created
    pub total_circuits_created: u64,
    /// Total circuits destroyed
    pub total_circuits_destroyed: u64,
    /// Average circuit lifetime
    pub average_circuit_lifetime: Duration,
}

/// Main circuit manager
pub struct CircuitManager {
    /// Configuration
    pub config: CircuitManagerConfig,
    /// Health monitor
    pub health_monitor: CircuitHealthMonitor,
    /// Circuit pool
    pub pool: CircuitPool,
    /// Active circuits
    pub active_circuits: HashMap<CircuitId, ActiveCircuit>,
    /// Next stream ID
    pub next_stream_id: u64,
    /// Total circuits created counter
    pub total_created: u64,
    /// Total circuits destroyed counter
    pub total_destroyed: u64,
    /// Manager start time
    pub start_time: Instant,
}

/// What the next step after a failure is.
#[derive(Debug, Clone, Copy, PartialEq, Eq, Structural)]
pub enum FailureStep {
    /// The circuit is not active; nothing follows.
    Done,
    /// The circuit is active. The event to send is that its status changed.
    Notify(HealthStatus),
    /// The circuit is active and has failed. The event is to be sent and the
    /// circuit closed.
    Close,
}

impl CircuitManager {
    /// Whether the monitor and the pool are sound, and the pool has numbered every
    /// active circuit.
    pub open spec fn wf(self) -> bool {
        &&& self.health_monitor.wf()
        &&& self.pool.wf()
        &&& forall|id: u64| #[trigger]
            self.active_circuits@.dom().contains(id) ==> id < self.pool.next_id
    }

    /// Whether the manager has the settings of `other`, for itself, for the
    /// monitor and for the pool.
    pub open spec fn same_settings(self, other: CircuitManager) -> bool {
        &&& self.config == other.config
        &&& self.health_monitor.config == other.health_monitor.config
        &&& self.pool.config == other.pool.config
        &&& self.next_stream_id == other.next_stream_id
        &&& self.start_time == other.start_time
    }

    /// Whether the manager has the settings and the counters of `other`.
    pub open spec fn same_books(self, other: CircuitManager) -> bool {
        &&& self.same_settings(other)
        &&& self.total_created == other.total_created
        &&& self.total_destroyed == other.total_destroyed
    }

    /// Whether the manager is new: it has no circuits, and the monitor and the
    /// pool have their parts of the configuration.
    pub open spec fn is_new(self, config: CircuitManagerConfig, now: Instant) -> bool {
        &&& self.config == config
        &&& self.health_monitor.config == config.health_config
        &&& self.health_monitor.metrics@ == Map::<u64, CircuitMetrics>::empty()
        &&& self.health_monitor.health_ranking@ == Seq::<u64>::empty()
        &&& self.pool.config == config.pool_config
        &&& self.pool.circuits@ == Map::<u64, PoolCircuit>::empty()
        &&& self.pool.available_queue@ == Seq::<u64>::empty()
        &&& self.pool.next_id == 1
        &&& self.active_circuits@ == Map::<u64, ActiveCircuit>::empty()
        &&& self.next_stream_id == 1
        &&& self.total_created == 0
        &&& self.total_destroyed == 0
        &&& self.start_time == now
    }

    /// Whether a circuit can be acquired within the limits of the counters, and
    /// what a refill builds is not worn out at once.
    pub open spec fn can_acquire(self, now: Instant) -> bool {
        &&& self.pool.usable_count()
        &&& self.total_created < u64::MAX
        &&& can_number(self.pool, self.pool.acquisition_numbers())
        &&& refills_last(self.pool, self.health_monitor.config, now)
    }

    /// Whether as many circuits are active as may be.
    pub open spec fn at_limit(self) -> bool {
        self.active_circuits@.len() >= self.config.max_concurrent_circuits
    }

    /// Whether one more circuit may be active
    pub fn admit_circuit(&self) -> (r: Result<(), CircuitManagerError>)
        ensures
            match r {
                Ok(_) => !self.at_limit(),
                Err(e) => self.at_limit() && e@ == too_many_circuits(),
            },
    {
        if self.active_circuits.len() >= self.config.max_concurrent_circuits {
            Err(
                CircuitManagerError::NoCircuitAvailable("Too many concurrent circuits".to_owned()),
            )
        } else {
            Ok(())
        }
    }

    /// Create a new circuit manager
    pub fn new(config: CircuitManagerConfig, now: Instant) -> (r: CircuitManager)
        ensures
            r.wf(),
            r.is_new(config, now),
    {
        CircuitManager {
            config,
            health_monitor: CircuitHealthMonitor::with_config(config.health_config),
            pool: CircuitPool::new(config.pool_config),
            active_circuits: HashMap::new(),
            next_stream_id: 1,
            total_created: 0,
            total_destroyed: 0,
            start_time: now,
        }
    }

    /// Initialize the circuit manager: fill the pool, where it is managed
    pub fn initialize<B: CircuitBuilder>(
        &mut self,
        builder: &B,
        now: Instant,
        pool_events: &mut Vec<PoolEvent>,
    ) -> (r: Result<(), CircuitManagerError>)
        requires
            old(self).wf(),
            can_number(old(self).pool, old(self).pool.config.pre_build_count as int),
        ensures
            final(self).wf(),
            final(self).same_books(*old(self)),
            final(self).active_circuits == old(self).active_circuits,
            settled(builder, old(self).pool.next_id, final(self).pool@),
            follows(old(pool_events)@, final(pool_events)@),
            failures_explained(builder, old(pool_events)@, final(pool_events)@),
            if old(self).config.enable_pool_management {
                let s0 = old(self).supply(old(pool_events)@);
                let s1 = final(self).supply(final(pool_events)@);
                match r {
                    Ok(_) => initialized(builder, s0, now, None, s1),
                    Err(e) => exists|failure: PoolFailure| #[trigger]
                        initialized(builder, s0, now, Some(failure), s1) && e@
                            == ManagerFailure::PoolInitializationFailed(failure.words()),
                }
            } else {
                r is Ok && final(self).pool == old(self).pool && final(self).health_monitor == old(
                    self,
                ).health_monitor && final(pool_events)@ == old(pool_events)@
            },
    {
        assert(pool_events@.take(pool_events@.len() as int) =~= pool_events@);
        if self.config.enable_pool_management {
            match self.pool.initialize(&mut self.health_monitor, builder, now, pool_events) {
                Ok(_) => Ok(()),
                Err(e) => {
                    let m = e.to_string();
                    assert(initialized(
                        builder,
                        old(self).supply(old(pool_events)@),
                        now,
                        Some(e@),
                        self.supply(pool_events@),
                    ));
                    Err(CircuitManagerError::PoolInitializationFailed(m))
                },
            }
        } else {
            Ok(())
        }
    }

    /// Registers a circuit that has come from the pool as active. The event to
    /// send is the acquisition.
    pub fn register_acquired(&mut self, circuit_id: CircuitId, purpose: &str, now: Instant) -> (r:
        Result<(CircuitHandle, CircuitManagerEvent), CircuitManagerError>)
        requires
            old(self).wf(),
            old(self).total_created < u64::MAX,
        ensures
            final(self).wf(),
            final(self).same_settings(*old(self)),
            final(self).pool == old(self).pool,
            final(self).health_monitor == old(self).health_monitor,
            final(self).total_destroyed == old(self).total_destroyed,
            if old(self).pool.circuits@.dom().contains(circuit_id) {
                let c = old(self).pool.circuits@[circuit_id];
                &&& r matches Ok((handle, event)) && handle.id == circuit_id && handle.path@
                    == c.path@ && handle.created_at == c.created_at && handle.health_score
                    == score_or_full(old(self).health_monitor.metrics@, circuit_id) && (
                event matches CircuitManagerEvent::CircuitAcquired { circuit_id: id, purpose: p }
                    && id == circuit_id && p@ == purpose@)
                &&& final(self).total_created == old(self).total_created + 1
                &&& final(self).active_circuits@.dom() == old(self).active_circuits@.dom().insert(
                    circuit_id,
                )
                &&& final(self).active_circuits@.remove(circuit_id) == old(
                    self,
                ).active_circuits@.remove(circuit_id)
                &&& is_fresh_active(
                    final(self).active_circuits@[circuit_id],
                    circuit_id,
                    c.path@,
                    now,
                )
            } else {
                &&& r matches Err(e) && e@ == ManagerFailure::CircuitNotFound(circuit_id)
                &&& final(self).total_created == old(self).total_created
                &&& final(self).active_circuits@ == old(self).active_circuits@
            },
    {
        let (path, copy, created_at) = match self.pool.get_circuit(circuit_id) {
            None => {
                return Err(CircuitManagerError::CircuitNotFound(circuit_id));
            },
            Some(c) => {
                let path = c.path.clone();
                let copy = c.path.clone();
                assert(path@ =~= c.path@);
                assert(copy@ =~= c.path@);
                (path, copy, c.created_at)
            },
        };
        let health_score: u8 = match self.health_monitor.get_health_score(circuit_id) {
            Some(score) => score,
            None => 100,
        };
        let streams: Vec<u64> = Vec::new();
        self.active_circuits.insert(
            circuit_id,
            ActiveCircuit {
                id: circuit_id,
                streams,
                created_at: now,
                last_activity: now,
                bytes_transferred: 0,
                request_count: 0,
                path: copy,
                is_closing: false,
            },
        );
        assert(self.active_circuits@.remove(circuit_id) =~= old(self).active_circuits@.remove(
            circuit_id,
        ));
        assert(self.active_circuits@.dom() =~= old(self).active_circuits@.dom().insert(circuit_id));
        self.total_created = self.total_created + 1;
        Ok(
            (
                CircuitHandle { id: circuit_id, path, created_at, health_score },
                CircuitManagerEvent::CircuitAcquired { circuit_id, purpose: purpose.to_owned() },
            ),
        )
    }

    /// Whether `after` has come from `before` by an acquisition from the pool that
    /// gave `r`: `said` are the events of the pool after it, and `sent` those of
    /// the manager.
    pub open spec fn takes(
        before: CircuitManager,
        asked: Seq<PoolEvent>,
        queued: Seq<CircuitManagerEvent>,
        purpose: Seq<char>,
        now: Instant,
        r: Result<CircuitHandle, CircuitManagerError>,
        after: CircuitManager,
        said: Seq<PoolEvent>,
        sent: Seq<CircuitManagerEvent>,
    ) -> bool {
        &&& acquired(
            before.supply(asked),
            before.health_monitor.config,
            now,
            match r {
                Ok(handle) => Some(handle.id),
                Err(_) => None,
            },
            after.supply(said),
        )
        &&& match r {
            Ok(handle) => {
                &&& told(asked, said, PoolEvent::CircuitAcquired { circuit_id: handle.id })
                &&& describes(handle, after.supply(said))
                &&& after.total_created == before.total_created + 1
                &&& after.active_circuits@.dom() == before.active_circuits@.dom().insert(handle.id)
                &&& after.active_circuits@.remove(handle.id) == before.active_circuits@.remove(
                    handle.id,
                )
                &&& is_fresh_active(
                    after.active_circuits@[handle.id],
                    handle.id,
                    handle.path@,
                    now,
                )
                &&& sent.len() == queued.len() + 1
                &&& sent.drop_last() == queued
                &&& sent.last() matches CircuitManagerEvent::CircuitAcquired {
                    circuit_id,
                    purpose: p,
                } && circuit_id == handle.id && p@ == purpose
            },
            Err(e) => {
                &&& after.total_created == before.total_created
                &&& after.active_circuits@ == before.active_circuits@
                &&& sent == queued
                &&& e@ == ManagerFailure::NoCircuitAvailable("Pool is empty"@)
            },
        }
    }

    /// Acquire a circuit for use, unless as many are active as may be
    pub fn acquire_circuit<B: CircuitBuilder>(
        &mut self,
        builder: &B,
        purpose: &str,
        _destination: Option<IpAddr>,
        now: Instant,
        pool_events: &mut Vec<PoolEvent>,
        events: &mut Vec<CircuitManagerEvent>,
    ) -> (r: Result<CircuitHandle, CircuitManagerError>)
        requires
            old(self).wf(),
            old(self).can_acquire(now),
        ensures
            final(self).wf(),
            final(self).same_settings(*old(self)),
            final(self).total_destroyed == old(self).total_destroyed,
            old(self).pool.next_id <= final(self).pool.next_id <= old(self).pool.next_id + old(
                self,
            ).pool.acquisition_numbers(),
            final(self).pool@.queue.len() <= at_most(old(self).pool),
            settled(builder, old(self).pool.next_id, final(self).pool@),
            failures_explained(builder, old(pool_events)@, final(pool_events)@),
            follows(old(pool_events)@, final(pool_events)@),
            if old(self).at_limit() {
                &&& r matches Err(e) && e@ == too_many_circuits()
                &&& *final(self) == *old(self)
                &&& final(pool_events)@ == old(pool_events)@
                &&& final(events)@ == old(events)@
            } else {
                &&& worn_are_closed(
                    builder,
                    old(self).supply(old(pool_events)@),
                    old(self).health_monitor.config,
                    now,
                )
                &&& Self::takes(
                    *old(self),
                    old(pool_events)@,
                    old(events)@,
                    purpose@,
                    now,
                    r,
                    *final(self),
                    final(pool_events)@,
                    final(events)@,
                )
            },
    {
        match self.admit_circuit() {
            Err(e) => {
                assert(pool_events@.take(pool_events@.len() as int) =~= pool_events@);
                return Err(e);
            },
            Ok(_) => {},
        }
        self.take_circuit(builder, purpose, now, pool_events, events)
    }

    fn take_circuit<B: CircuitBuilder>(
        &mut self,
        builder: &B,
        purpose: &str,
        now: Instant,
        pool_events: &mut Vec<PoolEvent>,
        events: &mut Vec<CircuitManagerEvent>,
    ) -> (r: Result<CircuitHandle, CircuitManagerError>)
        requires
            old(self).wf(),
            old(self).can_acquire(now),
        ensures
            final(self).wf(),
            final(self).same_settings(*old(self)),
            final(self).total_destroyed == old(self).total_destroyed,
            old(self).pool.next_id <= final(self).pool.next_id <= old(self).pool.next_id + old(
                self,
            ).pool.acquisition_numbers(),
            final(self).pool@.queue.len() <= at_most(old(self).pool),
            settled(builder, old(self).pool.next_id, final(self).pool@),
            failures_explained(builder, old(pool_events)@, final(pool_events)@),
            follows(old(pool_events)@, final(pool_events)@),
            worn_are_closed(
                builder,
                old(self).supply(old(pool_events)@),
                old(self).health_monitor.config,
                now,
            ),
            Self::takes(
                *old(self),
                old(pool_events)@,
                old(events)@,
                purpose@,
                now,
                r,
                *final(self),
                final(pool_events)@,
                final(events)@,
            ),
    {
        let id = match self.pool.acquire_circuit(
            &mut self.health_monitor,
            builder,
            now,
            pool_events,
        ) {
            Ok(id) => id,
            Err(e) => {
                return Err(CircuitManagerError::NoCircuitAvailable(e.to_string()));
            },
        };
        proof {
            super::supply::lemma_acquired_holds(
                old(self).pool,
                old(self).health_monitor.config,
                old(self).health_monitor.metrics@,
                now,
                id,
                self.pool@,
                self.health_monitor.metrics@,
            );
        }
        match self.register_acquired(id, purpose, now) {
            Ok((handle, event)) => {
                events.push(event);
                assert(events@.drop_last() =~= old(events)@);
                Ok(handle)
            },
            Err(e) => Err(e),
        }
    }

    /// The supply of circuits, with the given events of the pool.
    pub open spec fn supply(self, pool_events: Seq<PoolEvent>) -> Supply {
        supply(self.pool, self.health_monitor, pool_events)
    }

    /// Takes a circuit off the active ones
    pub fn deactivate(&mut self, circuit_id: CircuitId)
        ensures
            final(self).active_circuits@ == old(self).active_circuits@.remove(circuit_id),
            final(self).same_books(*old(self)),
            final(self).pool == old(self).pool,
            final(self).health_monitor == old(self).health_monitor,
    {
        self.active_circuits.remove(&circuit_id);
    }

    /// Release a circuit back to the manager
    pub fn release_circuit<B: CircuitBuilder>(
        &mut self,
        builder: &B,
        circuit_id: CircuitId,
        now: Instant,
        pool_events: &mut Vec<PoolEvent>,
        events: &mut Vec<CircuitManagerEvent>,
    ) -> (r: Result<(), CircuitManagerError>)
        requires
            old(self).wf(),
            can_number(old(self).pool, old(self).pool.config.min_pool_size as int),
        ensures
            final(self).wf(),
            final(self).same_books(*old(self)),
            final(self).active_circuits@ == old(self).active_circuits@.remove(circuit_id),
            given_back(
                old(self).supply(old(pool_events)@),
                circuit_id,
                final(self).supply(final(pool_events)@),
                now,
            ),
            settled(builder, old(self).pool.next_id, final(self).pool@),
            follows(old(pool_events)@, final(pool_events)@),
            failures_explained(builder, old(pool_events)@, final(pool_events)@),
            if old(self).pool.circuits@.dom().contains(circuit_id) {
                &&& r is Ok
                &&& final(events)@ == old(events)@.push(
                    CircuitManagerEvent::CircuitReleased { circuit_id },
                )
                &&& if old(self).pool.spent(old(self).pool.circuits@[circuit_id], now) {
                    &&& closed_by(builder, circuit_id)
                    &&& follows(
                        old(pool_events)@.push(
                            PoolEvent::CircuitRetired {
                                circuit_id,
                                reason: RetireReason::UseCount,
                            },
                        ),
                        final(pool_events)@,
                    )
                } else {
                    final(pool_events)@ == old(pool_events)@.push(
                        PoolEvent::CircuitReleased { circuit_id },
                    )
                }
            } else {
                &&& r matches Err(e) && e@ == ManagerFailure::PoolError(
                    "Circuit not found: "@ + decimal_text(circuit_id as nat),
                )
                &&& final(events)@ == old(events)@
                &&& final(pool_events)@ == old(pool_events)@
            },
    {
        self.deactivate(circuit_id);
        match self.pool.release_circuit(
            &mut self.health_monitor,
            builder,
            circuit_id,
            now,
            pool_events,
        ) {
            Ok(_) => {
                events.push(CircuitManagerEvent::CircuitReleased { circuit_id });
                Ok(())
            },
            Err(e) => Err(CircuitManagerError::PoolError(e.to_string())),
        }
    }

    /// Whether one more success of a circuit with `bytes` can be counted.
    pub open spec fn can_count_success(self, id: CircuitId, bytes: u64, now: Instant) -> bool {
        &&& self.health_monitor.metrics_or_fresh(id, now).has_room_for_success(bytes)
        &&& self.active_circuits@.dom().contains(id)
            ==> self.active_circuits@[id].bytes_transferred + bytes <= u64::MAX
            && self.active_circuits@[id].request_count < u64::MAX
        &&& self.pool.circuits@.dom().contains(id)
            ==> self.pool.circuits@[id].bytes_transferred + bytes <= u64::MAX
    }

    /// Whether the health monitor of `after` has counted a success of a circuit
    /// and nothing else.
    pub open spec fn counts_success(
        self,
        id: CircuitId,
        latency: Duration,
        bytes: u64,
        ewma: Reading,
        now: Instant,
        after: CircuitManager,
    ) -> bool {
        let m = self.health_monitor.metrics@;
        let m1 = after.health_monitor.metrics@;
        &&& after.health_monitor.config == self.health_monitor.config
        &&& m1.remove(id) == m.remove(id)
        &&& m1.dom().contains(id)
        &&& m1[id]@ == self.health_monitor.metrics_or_fresh(id, now).after_success(
            latency,
            bytes,
            ewma,
            now,
        )
    }

    /// Counts a success with the health monitor and the active circuits; the
    /// pool's usage is to be updated next.
    pub fn note_success(
        &mut self,
        circuit_id: CircuitId,
        latency: Duration,
        bytes: u64,
        ewma: Reading,
        now: Instant,
    )
        requires
            old(self).wf(),
            old(self).can_count_success(circuit_id, bytes, now),
        ensures
            final(self).wf(),
            final(self).same_books(*old(self)),
            final(self).pool == old(self).pool,
            old(self).health_monitor.changed_only(
                circuit_id,
                old(self).health_monitor.metrics_or_fresh(circuit_id, now).after_success(
                    latency,
                    bytes,
                    ewma,
                    now,
                ),
                final(self).health_monitor,
            ),
            ranks(final(self).health_monitor.health_ranking@, final(self).health_monitor.metrics@),
            final(self).active_circuits@ == after_request(
                old(self).active_circuits@,
                circuit_id,
                bytes,
                now,
            ),
    {
        self.health_monitor.record_success(circuit_id, latency, bytes, ewma, now);
        match self.active_circuits.remove(&circuit_id) {
            Some(mut c) => {
                c.last_activity = now;
                c.bytes_transferred = c.bytes_transferred + bytes;
                c.request_count = c.request_count + 1;
                self.active_circuits.insert(circuit_id, c);
            },
            None => {},
        }
        assert(self.active_circuits@ =~= after_request(
            old(self).active_circuits@,
            circuit_id,
            bytes,
            now,
        ));
    }

    /// Report successful circuit usage; `ewma` is the circuit's new moving
    /// average of latency
    pub fn report_success<B: CircuitBuilder>(
        &mut self,
        builder: &B,
        circuit_id: CircuitId,
        latency: Duration,
        bytes: u64,
        ewma: Reading,
        now: Instant,
        pool_events: &mut Vec<PoolEvent>,
    ) -> (r: Result<(), CircuitManagerError>)
        requires
            old(self).wf(),
            old(self).can_count_success(circuit_id, bytes, now),
            can_number(old(self).pool, old(self).pool.config.min_pool_size as int),
        ensures
            final(self).wf(),
            final(self).same_books(*old(self)),
            settled(builder, old(self).pool.next_id, final(self).pool@),
            follows(old(pool_events)@, final(pool_events)@),
            failures_explained(builder, old(pool_events)@, final(pool_events)@),
            final(self).active_circuits@ == after_request(
                old(self).active_circuits@,
                circuit_id,
                bytes,
                now,
            ),
            if old(self).pool.circuits@.dom().contains(circuit_id) {
                let c = old(self).pool.circuits@[circuit_id];
                &&& r is Ok
                &&& if c.bytes_transferred + bytes >= old(self).pool.config.max_bytes_transferred {
                    &&& closed_by(builder, circuit_id)
                    &&& retired_and_refilled(
                        old(self).supply(old(pool_events)@),
                        circuit_id,
                        RetireReason::BytesTransferred,
                        final(self).supply(final(pool_events)@),
                        now,
                    )
                } else {
                    &&& final(pool_events)@ == old(pool_events)@
                    &&& final(self).pool@ == (PoolView {
                        circuits: old(self).pool.circuits@.insert(
                            circuit_id,
                            PoolCircuit {
                                bytes_transferred: (c.bytes_transferred + bytes) as u64,
                                ..c
                            },
                        ),
                        ..old(self).pool@
                    })
                    &&& old(self).counts_success(
                        circuit_id,
                        latency,
                        bytes,
                        ewma,
                        now,
                        *final(self),
                    )
                }
            } else {
                &&& r matches Err(e) && e@ == ManagerFailure::PoolError(
                    "Circuit not found: "@ + decimal_text(circuit_id as nat),
                )
                &&& final(self).pool@ == old(self).pool@
                &&& final(pool_events)@ == old(pool_events)@
                &&& old(self).counts_success(circuit_id, latency, bytes, ewma, now, *final(self))
            },
    {
        self.note_success(circuit_id, latency, bytes, ewma, now);
        assert(self.health_monitor.metrics@.remove(circuit_id) =~= old(
            self,
        ).health_monitor.metrics@.remove(circuit_id));
        match self.pool.update_circuit_usage(
            &mut self.health_monitor,
            builder,
            circuit_id,
            bytes,
            now,
            pool_events,
        ) {
            Ok(_) => Ok(()),
            Err(e) => Err(CircuitManagerError::PoolError(e.to_string())),
        }
    }

    /// Counts a failure with the health monitor and says what follows
    pub fn note_failure(
        &mut self,
        circuit_id: CircuitId,
        failure_type: FailureType,
        now: Instant,
    ) -> (r: FailureStep)
        requires
            old(self).wf(),
            old(self).health_monitor.metrics_or_fresh(circuit_id, now).has_room_for_failure(),
        ensures
            final(self).wf(),
            final(self).same_books(*old(self)),
            final(self).pool == old(self).pool,
            final(self).active_circuits == old(self).active_circuits,
            old(self).health_monitor.changed_only(
                circuit_id,
                old(self).health_monitor.metrics_or_fresh(circuit_id, now).after_failure(now),
                final(self).health_monitor,
            ),
            ranks(final(self).health_monitor.health_ranking@, final(self).health_monitor.metrics@),
            r == failure_step(
                old(self).active_circuits@.dom().contains(circuit_id),
                old(self).health_monitor.metrics_or_fresh(circuit_id, now).after_failure(
                    now,
                ).status,
            ),
    {
        self.health_monitor.record_failure(circuit_id, failure_type, now);
        if !self.active_circuits.contains_key(&circuit_id) {
            return FailureStep::Done;
        }
        match self.health_monitor.get_health_status(circuit_id) {
            Some(HealthStatus::Failed) => FailureStep::Close,
            Some(status) => FailureStep::Notify(status),
            None => FailureStep::Done,
        }
    }

    /// Whether the health monitor of `after` has counted a failure of a circuit
    /// and nothing else.
    pub open spec fn counts_failure(
        self,
        id: CircuitId,
        now: Instant,
        after: CircuitManager,
    ) -> bool {
        let m = self.health_monitor.metrics@;
        let m1 = after.health_monitor.metrics@;
        &&& after.health_monitor.config == self.health_monitor.config
        &&& m1.remove(id) == m.remove(id)
        &&& m1.dom().contains(id)
        &&& m1[id]@ == self.health_monitor.metrics_or_fresh(id, now).after_failure(now)
    }

    /// Report circuit failure: an active circuit's status is announced, and one
    /// that has failed is closed
    pub fn report_failure<B: CircuitBuilder>(
        &mut self,
        builder: &B,
        circuit_id: CircuitId,
        failure_type: FailureType,
        now: Instant,
        pool_events: &mut Vec<PoolEvent>,
        events: &mut Vec<CircuitManagerEvent>,
    ) -> (r: Result<(), CircuitManagerError>)
        requires
            old(self).wf(),
            old(self).health_monitor.metrics_or_fresh(circuit_id, now).has_room_for_failure(),
            can_number(old(self).pool, old(self).pool.config.min_pool_size as int),
            old(self).total_destroyed < u64::MAX,
        ensures
            final(self).wf(),
            r is Ok,
            settled(builder, old(self).pool.next_id, final(self).pool@),
            follows(old(pool_events)@, final(pool_events)@),
            failures_explained(builder, old(pool_events)@, final(pool_events)@),
            ({
                let status = old(self).health_monitor.metrics_or_fresh(
                    circuit_id,
                    now,
                ).after_failure(now).status;
                let changed = CircuitManagerEvent::HealthStatusChanged {
                    circuit_id,
                    new_status: status,
                };
                match failure_step(
                    old(self).active_circuits@.dom().contains(circuit_id),
                    status,
                ) {
                    FailureStep::Done => {
                        &&& final(events)@ == old(events)@
                        &&& final(self).same_books(*old(self))
                        &&& final(self).pool == old(self).pool
                        &&& final(pool_events)@ == old(pool_events)@
                        &&& final(self).active_circuits == old(self).active_circuits
                        &&& old(self).counts_failure(circuit_id, now, *final(self))
                    },
                    FailureStep::Notify(_) => {
                        &&& final(events)@ == old(events)@.push(changed)
                        &&& final(self).same_books(*old(self))
                        &&& final(self).pool == old(self).pool
                        &&& final(pool_events)@ == old(pool_events)@
                        &&& final(self).active_circuits == old(self).active_circuits
                        &&& old(self).counts_failure(circuit_id, now, *final(self))
                    },
                    FailureStep::Close => {
                        &&& final(events)@.drop_last() == old(events)@.push(changed)
                        &&& is_closing_event(
                            final(events)@.last(),
                            circuit_id,
                            "Health check failed"@,
                        )
                        &&& final(self).total_destroyed == old(self).total_destroyed + 1
                        &&& final(self).active_circuits@ == old(self).active_circuits@.remove(
                            circuit_id,
                        )
                        &&& final(self).same_settings(*old(self))
                        &&& final(self).total_created == old(self).total_created
                        &&& if old(self).pool.circuits@.dom().contains(circuit_id) {
                            &&& closed_by(builder, circuit_id)
                            &&& retired_and_refilled(
                                old(self).supply(old(pool_events)@),
                                circuit_id,
                                RetireReason::Explicit,
                                final(self).supply(final(pool_events)@),
                                now,
                            )
                        } else {
                            &&& final(self).pool@ == old(self).pool@
                            &&& final(pool_events)@ == old(pool_events)@
                            &&& old(self).counts_failure(circuit_id, now, *final(self))
                        }
                    },
                }
            }),
    {
        assert(pool_events@.take(pool_events@.len() as int) =~= pool_events@);
        match self.note_failure(circuit_id, failure_type, now) {
            FailureStep::Done => Ok(()),
            FailureStep::Notify(status) => {
                events.push(
                    CircuitManagerEvent::HealthStatusChanged { circuit_id, new_status: status },
                );
                Ok(())
            },
            FailureStep::Close => {
                events.push(
                    CircuitManagerEvent::HealthStatusChanged {
                        circuit_id,
                        new_status: HealthStatus::Failed,
                    },
                );
                assert(self.health_monitor.metrics@.remove(circuit_id) =~= old(
                    self,
                ).health_monitor.metrics@.remove(circuit_id));
                let closed = self.close_circuit(
                    builder,
                    circuit_id,
                    "Health check failed",
                    now,
                    pool_events,
                    events,
                );
                closed
            },
        }
    }

    /// Books the end of a circuit that has been retired. The event to send is
    /// its closure.
    pub fn note_closed(&mut self, circuit_id: CircuitId, reason: &str) -> (r: CircuitManagerEvent)
        requires
            old(self).total_destroyed < u64::MAX,
        ensures
            is_closing_event(r, circuit_id, reason@),
            final(self).total_destroyed == old(self).total_destroyed + 1,
            final(self).same_settings(*old(self)),
            final(self).health_monitor == old(self).health_monitor,
            final(self).pool == old(self).pool,
            final(self).active_circuits == old(self).active_circuits,
            final(self).total_created == old(self).total_created,
    {
        self.total_destroyed = self.total_destroyed + 1;
        CircuitManagerEvent::CircuitClosed { circuit_id, reason: reason.to_owned() }
    }

    /// Close a circuit
    pub fn close_circuit<B: CircuitBuilder>(
        &mut self,
        builder: &B,
        circuit_id: CircuitId,
        reason: &str,
        now: Instant,
        pool_events: &mut Vec<PoolEvent>,
        events: &mut Vec<CircuitManagerEvent>,
    ) -> (r: Result<(), CircuitManagerError>)
        requires
            old(self).wf(),
            can_number(old(self).pool, old(self).pool.config.min_pool_size as int),
            old(self).total_destroyed < u64::MAX,
        ensures
            final(self).wf(),
            r is Ok,
            final(self).same_settings(*old(self)),
            final(self).total_created == old(self).total_created,
            final(self).total_destroyed == old(self).total_destroyed + 1,
            final(self).active_circuits@ == old(self).active_circuits@.remove(circuit_id),
            retired_if_there(
                old(self).supply(old(pool_events)@),
                circuit_id,
                RetireReason::Explicit,
                final(self).supply(final(pool_events)@),
                now,
            ),
            settled(builder, old(self).pool.next_id, final(self).pool@),
            follows(old(pool_events)@, final(pool_events)@),
            failures_explained(builder, old(pool_events)@, final(pool_events)@),
            old(self).pool.circuits@.dom().contains(circuit_id) ==> closed_by(builder, circuit_id),
            final(events)@.len() == old(events)@.len() + 1,
            final(events)@.drop_last() == old(events)@,
            is_closing_event(final(events)@.last(), circuit_id, reason@),
    {
        self.deactivate(circuit_id);
        let _ = self.pool.retire_circuit(
            &mut self.health_monitor,
            builder,
            circuit_id,
            RetireReason::Explicit,
            now,
            pool_events,
        );
        let event = self.note_closed(circuit_id, reason);
        events.push(event);
        assert(events@.drop_last() =~= old(events)@);
        Ok(())
    }

    /// Whether another circuit may not take the place of this one: it is not
    /// active, and as many are as may be.
    pub open spec fn cannot_replace(self, circuit_id: CircuitId) -> bool {
        !self.active_circuits@.dom().contains(circuit_id) && self.at_limit()
    }

    /// Whether another circuit may take the place of this one
    pub fn admit_replacement(&self, circuit_id: CircuitId) -> (r: Result<(), CircuitManagerError>)
        ensures
            match r {
                Ok(_) => !self.cannot_replace(circuit_id),
                Err(e) => self.cannot_replace(circuit_id) && e@ == too_many_circuits(),
            },
    {
        if self.active_circuits.contains_key(&circuit_id) {
            Ok(())
        } else {
            self.admit_circuit()
        }
    }

    /// Rotate a circuit: acquire another, close this one
    #[verifier::rlimit(30)]
    pub fn rotate_circuit<B: CircuitBuilder>(
        &mut self,
        builder: &B,
        old_circuit_id: CircuitId,
        trigger: RotationTrigger,
        now: Instant,
        pool_events: &mut Vec<PoolEvent>,
        events: &mut Vec<CircuitManagerEvent>,
    ) -> (r: Result<CircuitHandle, CircuitManagerError>)
        requires
            old(self).wf(),
            old(self).can_acquire(now),
            old(self).total_destroyed < u64::MAX,
            can_number(
                old(self).pool,
                old(self).pool.acquisition_numbers() + old(self).pool.config.min_pool_size,
            ),
        ensures
            final(self).wf(),
            final(self).same_settings(*old(self)),
            settled_but_for(
                builder,
                old(self).pool.next_id,
                final(self).pool@,
                set![old_circuit_id],
            ),
            follows(old(pool_events)@, final(pool_events)@),
            failures_explained(builder, old(pool_events)@, final(pool_events)@),
            old_circuit_id < old(self).pool.next_id ==> settled(
                builder,
                old(self).pool.next_id,
                final(self).pool@,
            ),
            old(self).cannot_replace(old_circuit_id) || worn_are_closed(
                builder,
                old(self).supply(old(pool_events)@),
                old(self).health_monitor.config,
                now,
            ),
            match r {
                Ok(handle) => {
                    &&& exists|s: Supply| #[trigger]
                        acquired(
                            old(self).supply(old(pool_events)@),
                            old(self).health_monitor.config,
                            now,
                            Some(handle.id),
                            s,
                        ) && retired_if_there(
                            s,
                            old_circuit_id,
                            RetireReason::Explicit,
                            final(self).supply(final(pool_events)@),
                            now,
                        ) && describes(handle, s)
                    &&& handle.id != old_circuit_id ==> describes(
                        handle,
                        final(self).supply(final(pool_events)@),
                    )
                    &&& !old(self).cannot_replace(old_circuit_id)
                    &&& old(self).pool.circuits@.dom().contains(old_circuit_id) ==> closed_by(
                        builder,
                        old_circuit_id,
                    )
                    &&& final(self).total_created == old(self).total_created + 1
                    &&& final(self).total_destroyed == old(self).total_destroyed + 1
                    &&& final(self).active_circuits@.dom() == old(
                        self,
                    ).active_circuits@.dom().insert(handle.id).remove(old_circuit_id)
                    &&& handle.id != old_circuit_id ==> is_fresh_active(
                        final(self).active_circuits@[handle.id],
                        handle.id,
                        handle.path@,
                        now,
                    )
                    &&& final(self).active_circuits@.remove(handle.id).remove(old_circuit_id)
                        == old(self).active_circuits@.remove(handle.id).remove(old_circuit_id)
                    &&& final(events)@.len() == old(events)@.len() + 3
                    &&& final(events)@.take(old(events)@.len() as int) == old(events)@
                    &&& final(events)@[old(events)@.len() as int] matches
                        CircuitManagerEvent::CircuitAcquired { circuit_id, purpose }
                        && circuit_id == handle.id && purpose@ == "rotation"@
                    &&& final(events)@.last() == (CircuitManagerEvent::CircuitRotated {
                        old_id: old_circuit_id,
                        new_id: handle.id,
                        trigger,
                    })
                    &&& is_closing_event(
                        final(events)@[old(events)@.len() as int + 1],
                        old_circuit_id,
                        "Rotated: "@ + trigger.words(),
                    )
                },
                Err(e) => {
                    &&& final(self).total_created == old(self).total_created
                    &&& final(self).total_destroyed == old(self).total_destroyed
                    &&& final(self).active_circuits@ == old(self).active_circuits@
                    &&& final(events)@ == old(events)@
                    &&& if old(self).cannot_replace(old_circuit_id) {
                        &&& e@ == too_many_circuits()
                        &&& *final(self) == *old(self)
                        &&& final(pool_events)@ == old(pool_events)@
                    } else {
                        &&& acquired(
                            old(self).supply(old(pool_events)@),
                            old(self).health_monitor.config,
                            now,
                            None,
                            final(self).supply(final(pool_events)@),
                        )
                        &&& e@ == ManagerFailure::NoCircuitAvailable("Pool is empty"@)
                    }
                },
            },
    {
        assert(pool_events@.take(pool_events@.len() as int) =~= pool_events@);
        match self.admit_replacement(old_circuit_id) {
            Err(e) => {
                return Err(e);
            },
            Ok(_) => {},
        }
        let handle = match self.take_circuit(builder, "rotation", now, pool_events, events) {
            Ok(handle) => handle,
            Err(e) => {
                return Err(e);
            },
        };
        let ghost between = self.supply(pool_events@);
        assert(describes(handle, between));
        proof {
            lemma_acquisition_keeps(
                old(self).pool@,
                old(self).health_monitor.config,
                old(self).health_monitor.metrics@,
                now,
                Some(handle.id),
                between.pool,
                between.metrics,
            );
        }
        let ghost active = self.active_circuits@;
        let ghost first = events@;
        let reason = text::joined("Rotated: ", trigger.to_string().as_str());
        match self.close_circuit(
            builder,
            old_circuit_id,
            reason.as_str(),
            now,
            pool_events,
            events,
        ) {
            Ok(_) => {},
            Err(e) => {
                return Err(e);
            },
        }
        proof {
            assert(self.active_circuits@.dom() =~= old(self).active_circuits@.dom().insert(
                handle.id,
            ).remove(old_circuit_id));
            assert(self.active_circuits@.remove(handle.id) =~= active.remove(handle.id).remove(
                old_circuit_id,
            ));
            assert(self.active_circuits@.remove(handle.id).remove(old_circuit_id) =~= old(
                self,
            ).active_circuits@.remove(handle.id).remove(old_circuit_id));
            assert(acquired(
                old(self).supply(old(pool_events)@),
                old(self).health_monitor.config,
                now,
                Some(handle.id),
                between,
            ));
            assert(first[old(events)@.len() as int] == first.last());
            assert(events@.drop_last()[old(events)@.len() as int] == first.last());
        }
        proof {
            let last = self.supply(pool_events@);
            lemma_explained_on(builder, old(pool_events)@, between.events, pool_events@);
            lemma_follows_on(old(pool_events)@, between.events, pool_events@);
            lemma_settled_retired(
                builder,
                old(self).pool.next_id,
                between.pool.next_id,
                between,
                old_circuit_id,
                RetireReason::Explicit,
                last,
                now,
                Set::empty(),
            );
            if handle.id != old_circuit_id && between.pool.circuits.dom().contains(
                old_circuit_id,
            ) {
                let kept = between.pool.circuits.remove(old_circuit_id);
                assert(kept.dom().contains(handle.id));
                assert(last.pool.circuits[handle.id] == kept[handle.id]);
                assert(last.metrics.dom().contains(handle.id) <==> between.metrics.remove(
                    old_circuit_id,
                ).dom().contains(handle.id));
            }
        }
        let ghost second = events@;
        events.push(
            CircuitManagerEvent::CircuitRotated {
                old_id: old_circuit_id,
                new_id: handle.id,
                trigger,
            },
        );
        assert(events@.take(old(events)@.len() as int) =~= first.drop_last()) by {
            assert(second.drop_last() == first);
        }
        Ok(handle)
    }

    /// Get the healthiest available circuit
    pub fn get_healthiest_circuit(&self, candidates: &Vec<CircuitId>) -> (r: Option<CircuitId>)
        requires
            self.wf(),
        ensures
            match r {
                None => forall|i: int|
                    0 <= i < candidates@.len() ==> !self.health_monitor.eligible(
                        #[trigger] candidates@[i],
                    ),
                Some(id) => exists|k: int| #[trigger]
                    self.health_monitor.is_healthiest(candidates@, k, id),
            },
    {
        self.health_monitor.get_healthiest_circuit(candidates)
    }

    /// Get circuit statistics
    pub fn get_statistics(&self, now: Instant) -> (r: CircuitManagerStatistics)
        requires
            self.wf(),
            self.pool.total_bytes() <= u64::MAX,
            self.pool.total_uses() <= u64::MAX,
            self.health_monitor.metrics@.len() <= u32::MAX,
            self.health_monitor.total_latency() <= u64::MAX,
            self.health_monitor.total_bytes() <= u64::MAX,
        ensures
            r.pool_stats == self.pool.statistics(),
            r.health_stats.total_circuits == self.health_monitor.metrics@.len(),
            r.health_stats.healthy_circuits == self.health_monitor.count_of(HealthStatus::Healthy),
            r.health_stats.degraded_circuits == self.health_monitor.count_of(
                HealthStatus::Degraded,
            ),
            r.health_stats.unhealthy_circuits == self.health_monitor.count_of(
                HealthStatus::Unhealthy,
            ),
            r.health_stats.failed_circuits == self.health_monitor.count_of(HealthStatus::Failed),
            r.health_stats.total_bytes_transferred == self.health_monitor.total_bytes(),
            r.health_stats.average_latency.nanos == (if self.health_monitor.metrics@.len() == 0 {
                0
            } else {
                self.health_monitor.total_latency() / self.health_monitor.metrics@.len() as int
            }),
            r.rotation_stats is None,
            r.active_streams == self.active_circuits@.len(),
            r.total_circuits_created == self.total_created,
            r.total_circuits_destroyed == self.total_destroyed,
            r.average_circuit_lifetime.nanos == (if self.total_destroyed == 0 {
                0
            } else {
                elapsed(now, self.start_time) / 1_000_000_000 / self.total_destroyed as int
                    * 1_000_000_000
            }),
    {
        let lifetime = if self.total_destroyed > 0 {
            let run: u64 = now.duration_since(self.start_time).as_secs();
            proof {
                assert(0 <= run as int / self.total_destroyed as int <= run) by (nonlinear_arith)
                    requires
                        run >= 0,
                        self.total_destroyed > 0,
                ;
            }
            Duration::from_secs(run / self.total_destroyed)
        } else {
            Duration::from_secs(0)
        };
        CircuitManagerStatistics {
            pool_stats: self.pool.get_statistics(),
            health_stats: self.health_monitor.get_statistics(),
            rotation_stats: None,
            active_streams: self.active_circuits.len(),
            total_circuits_created: self.total_created,
            total_circuits_destroyed: self.total_destroyed,
            average_circuit_lifetime: lifetime,
        }
    }

    /// Get health status for a circuit
    pub fn get_circuit_health(&self, circuit_id: CircuitId) -> (r: Option<HealthStatus>)
        ensures
            match r {
                Some(s) => self.health_monitor.metrics@.dom().contains(circuit_id) && s
                    == self.health_monitor.metrics@[circuit_id].status,
                None => !self.health_monitor.metrics@.dom().contains(circuit_id),
            },
    {
        self.health_monitor.get_health_status(circuit_id)
    }

    /// Get all unhealthy circuits, each once
    pub fn get_unhealthy_circuits(&self) -> (r: Vec<CircuitId>)
        ensures
            r@.no_duplicates(),
            forall|id: u64| #[trigger]
                r@.contains(id) <==> self.health_monitor.metrics@.dom().contains(id)
                    && !self.health_monitor.metrics@[id].status.usable(),
    {
        self.health_monitor.get_unhealthy_circuits()
    }

    /// Check if any circuits are available
    pub fn has_available_circuits(&self) -> (r: bool)
        requires
            self.pool.total_bytes() <= u64::MAX,
            self.pool.total_uses() <= u64::MAX,
        ensures
            r == (self.pool.statistics().ready_circuits > 0
                || self.pool.statistics().building_circuits > 0),
    {
        let stats = self.pool.get_statistics();
        stats.ready_circuits > 0 || stats.building_circuits > 0
    }

    /// The active circuits that are in ill health, each once with its status:
    /// those that the periodic check announces, deactivates and retires
    pub fn unhealthy_active(&self) -> (r: Vec<(CircuitId, HealthStatus)>)
        ensures
            self.lists_unhealthy(r@),
    {
        let all = self.health_monitor.get_unhealthy_circuits();
        let mut r: Vec<(u64, HealthStatus)> = Vec::new();
        let mut i: usize = 0;
        while i < all.len()
            invariant
                i <= all@.len(),
                all@.no_duplicates(),
                forall|id: u64| #[trigger]
                    all@.contains(id) <==> self.health_monitor.metrics@.dom().contains(id)
                        && !self.health_monitor.metrics@[id].status.usable(),
                forall|a: int, b: int|
                    0 <= a < b < r@.len() ==> (#[trigger] r@[a]).0 != (#[trigger] r@[b]).0,
                forall|k: int|
                    0 <= k < r@.len() ==> exists|j: int|
                        0 <= j < i && #[trigger] all@[j] == (#[trigger] r@[k]).0,
                forall|id: u64, s: HealthStatus| #[trigger]
                    r@.contains((id, s)) <==> seen(all@, i as int).contains(id)
                        && self.unhealthy_now(id) && self.health_monitor.metrics@[id].status == s,
            decreases all@.len() - i,
        {
            proof {
                maps::lemma_seen_next(all@, i as int);
                assert(all@.contains(all@[i as int]));
            }
            let id: u64 = all[i];
            if self.active_circuits.contains_key(&id) {
                match self.health_monitor.get_health_status(id) {
                    Some(status) => {
                        let ghost before = r@;
                        r.push((id, status));
                        proof {
                            assert forall|y: (u64, HealthStatus)| #[trigger]
                                r@.contains(y) <==> before.contains(y) || y == (id, status) by {
                                if before.contains(y) {
                                    let k = choose|k: int| 0 <= k < before.len() && before[k] == y;
                                    assert(r@[k] == y);
                                }
                                assert(r@[before.len() as int] == (id, status));
                                if r@.contains(y) {
                                    let k = choose|k: int| 0 <= k < r@.len() && r@[k] == y;
                                    if k < before.len() {
                                        assert(before[k] == y);
                                    }
                                }
                            }
                            assert forall|k: int| 0 <= k < r@.len() implies exists|j: int|
                                0 <= j < i + 1 && #[trigger] all@[j] == (#[trigger] r@[k]).0 by {
                                if k < before.len() {
                                    let j = choose|j: int|
                                        0 <= j < i && #[trigger] all@[j] == before[k].0;
                                    assert(all@[j] == r@[k].0);
                                } else {
                                    assert(all@[i as int] == r@[k].0);
                                }
                            }
                        }
                    },
                    None => {},
                }
            }
            i = i + 1;
        }
        proof {
            maps::lemma_seen_ends(all@);
        }
        r
    }

    /// Whether the list holds the active circuits in ill health, each once, with
    /// their status.
    pub open spec fn lists_unhealthy(self, list: Seq<(u64, HealthStatus)>) -> bool {
        &&& forall|i: int, j: int|
            0 <= i < j < list.len() ==> (#[trigger] list[i]).0 != (#[trigger] list[j]).0
        &&& forall|id: u64, s: HealthStatus| #[trigger]
            list.contains((id, s)) <==> self.unhealthy_now(id)
                && self.health_monitor.metrics@[id].status == s
    }

    /// Whether the circuit is active and in ill health.
    pub open spec fn unhealthy_now(self, id: CircuitId) -> bool {
        &&& self.health_monitor.metrics@.dom().contains(id)
        &&& !self.health_monitor.metrics@[id].status.usable()
        &&& self.active_circuits@.dom().contains(id)
    }

    /// One pass of the periodic health check: every active circuit in ill health
    /// is announced, deactivated and retired
    #[verifier::rlimit(30)]
    pub fn retire_unhealthy<B: CircuitBuilder>(
        &mut self,
        builder: &B,
        now: Instant,
        pool_events: &mut Vec<PoolEvent>,
        events: &mut Vec<CircuitManagerEvent>,
    )
        requires
            old(self).wf(),
            can_number(
                old(self).pool,
                old(self).health_monitor.metrics@.len() * old(self).pool.config.min_pool_size,
            ),
        ensures
            final(self).wf(),
            final(self).same_books(*old(self)),
            settled(builder, old(self).pool.next_id, final(self).pool@),
            follows(old(pool_events)@, final(pool_events)@),
            failures_explained(builder, old(pool_events)@, final(pool_events)@),
            forall|id: u64| #[trigger]
                final(self).active_circuits@.dom().contains(id) <==> old(
                    self,
                ).active_circuits@.dom().contains(id) && !old(self).unhealthy_now(id),
            forall|id: u64| #[trigger]
                final(self).active_circuits@.dom().contains(id)
                    ==> final(self).active_circuits@[id] == old(self).active_circuits@[id],
            forall|id: u64|
                id < old(self).pool.next_id ==> (
                #[trigger] final(self).pool.circuits@.dom().contains(id) <==> old(
                    self,
                ).pool.circuits@.dom().contains(id) && !old(self).unhealthy_now(id)),
            forall|id: u64|
                id < old(self).pool.next_id && #[trigger] final(self).pool.circuits@.dom().contains(
                    id,
                ) ==> final(self).pool.circuits@[id] == old(self).pool.circuits@[id],
            exists|list: Seq<(u64, HealthStatus)>, states: Seq<Supply>|
                old(self).lists_unhealthy(list) && #[trigger] announced(
                    old(events)@,
                    list,
                    final(events)@,
                ) && #[trigger] retired_in_turn(
                    states,
                    ids_of(list),
                    RetireReason::HealthCheck,
                    now,
                ) && states.first() == old(self).supply(old(pool_events)@) && states.last()
                    == final(self).supply(final(pool_events)@),
            forall|id: u64|
                old(self).unhealthy_now(id) && #[trigger] old(self).pool.circuits@.dom().contains(id)
                    ==> closed_by(builder, id),
    {
        let list = self.unhealthy_active();
        let ghost mut states: Seq<Supply> = seq![self.supply(pool_events@)];
        let ghost step = self.pool.config.min_pool_size as int;
        proof {
            lemma_fewer_than_metrics(*self, list@);
            assert forall|k: int| 0 <= k < list@.len() implies (#[trigger] list@[k]).0
                < self.pool.next_id by {
                assert(list@.contains((list@[k].0, list@[k].1)));
                assert(self.active_circuits@.dom().contains(list@[k].0));
            }
        }
        let mut i: usize = 0;
        assert(list@.take(0) =~= Seq::<(u64, HealthStatus)>::empty());
        assert(pool_events@.take(pool_events@.len() as int) =~= pool_events@);
        while i < list.len()
            invariant
                self.wf(),
                self.same_books(*old(self)),
                settled(builder, old(self).pool.next_id, self.pool@),
                follows(old(pool_events)@, pool_events@),
                failures_explained(builder, old(pool_events)@, pool_events@),
                forall|k: int| 0 <= k < list@.len() ==> (#[trigger] list@[k]).0
                    < old(self).pool.next_id,
                i <= list@.len(),
                list@.len() <= old(self).health_monitor.metrics@.len(),
                step == old(self).pool.config.min_pool_size,
                self.pool.config == old(self).pool.config,
                old(self).pool.next_id <= self.pool.next_id <= old(self).pool.next_id + i * step,
                can_number(
                    old(self).pool,
                    old(self).health_monitor.metrics@.len() * step,
                ),
                forall|id: u64| #[trigger]
                    self.active_circuits@.dom().contains(id) <==> old(
                        self,
                    ).active_circuits@.dom().contains(id) && !listed(list@.take(i as int), id),
                forall|id: u64| #[trigger]
                    self.active_circuits@.dom().contains(id) ==> self.active_circuits@[id] == old(
                        self,
                    ).active_circuits@[id],
                forall|id: u64| #[trigger]
                    old(self).pool.circuits@.dom().contains(id) ==> id < old(self).pool.next_id,
                forall|id: u64|
                    id < old(self).pool.next_id ==> (#[trigger] self.pool.circuits@.dom().contains(
                        id,
                    ) <==> old(self).pool.circuits@.dom().contains(id) && !listed(
                        list@.take(i as int),
                        id,
                    )),
                forall|id: u64|
                    id < old(self).pool.next_id && #[trigger] self.pool.circuits@.dom().contains(id)
                        ==> self.pool.circuits@[id] == old(self).pool.circuits@[id],
                announced(old(events)@, list@.take(i as int), events@),
                states.len() > 0,
                states.first() == old(self).supply(old(pool_events)@),
                states.last() == self.supply(pool_events@),
                retired_in_turn(
                    states,
                    ids_of(list@.take(i as int)),
                    RetireReason::HealthCheck,
                    now,
                ),
                forall|id: u64|
                    listed(list@.take(i as int), id) && #[trigger] old(
                        self,
                    ).pool.circuits@.dom().contains(id) ==> closed_by(builder, id),
            decreases list@.len() - i,
        {
            let (id, status) = list[i];
            let ghost told = events@;
            proof {
                lemma_listed_next(list@, i as int);
                assert(i * step + step == (i + 1) * step) by (nonlinear_arith);
                let known = old(self).health_monitor.metrics@.len() as int;
                assert((i + 1) * step <= known * step) by (nonlinear_arith)
                    requires
                        i + 1 <= known,
                        step >= 0,
                ;
            }
            events.push(
                CircuitManagerEvent::HealthStatusChanged { circuit_id: id, new_status: status },
            );
            proof {
                assert(list@.take(i + 1).drop_last() =~= list@.take(i as int));
                assert(events@.drop_last() =~= told);
            }
            self.deactivate(id);
            let ghost before = self.pool;
            let ghost s0 = self.supply(pool_events@);
            let _ = self.pool.retire_circuit(
                &mut self.health_monitor,
                builder,
                id,
                RetireReason::HealthCheck,
                now,
                pool_events,
            );
            proof {
                let done = ids_of(list@.take(i as int));
                let s1 = self.supply(pool_events@);
                lemma_explained_on(builder, old(pool_events)@, s0.events, pool_events@);
                lemma_follows_on(old(pool_events)@, s0.events, pool_events@);
                lemma_settled_without_older(
                    builder,
                    old(self).pool.next_id,
                    s0,
                    id,
                    RetireReason::HealthCheck,
                    s1,
                    now,
                );
                assert(ids_of(list@.take(i + 1)) =~= done.push(id));
                assert forall|k: int| 0 <= k < done.len() + 1 implies #[trigger] retired_if_there(
                    states.push(s1)[k],
                    done.push(id)[k],
                    RetireReason::HealthCheck,
                    states.push(s1)[k + 1],
                    now,
                ) by {
                    if k < done.len() {
                        assert(retired_if_there(
                            states[k],
                            done[k],
                            RetireReason::HealthCheck,
                            states[k + 1],
                            now,
                        ));
                    }
                }
                states = states.push(s1);
                if old(self).pool.circuits@.dom().contains(id) {
                    assert(before.circuits@.dom().contains(id) || listed(
                        list@.take(i as int),
                        id,
                    ));
                }
                assert forall|x: u64| x < old(self).pool.next_id implies (
                #[trigger] self.pool.circuits@.dom().contains(x) <==> old(
                    self,
                ).pool.circuits@.dom().contains(x) && !listed(list@.take(i + 1), x)) by {
                    if before.circuits@.dom().contains(id) {
                        assert(self.pool@.circuits.dom().contains(x)
                            <==> before.circuits@.remove(id).dom().contains(x));
                    } else {
                        assert(self.pool.circuits@ == self.pool@.circuits);
                    }
                    assert(before.circuits@.dom().contains(x) <==> old(
                        self,
                    ).pool.circuits@.dom().contains(x) && !listed(list@.take(i as int), x));
                }
                assert forall|x: u64|
                    x < old(self).pool.next_id
                        && #[trigger] self.pool.circuits@.dom().contains(x) implies self.pool.circuits@[x]
                    == old(self).pool.circuits@[x] by {
                    assert(before.circuits@.dom().contains(x));
                    if before.circuits@.dom().contains(id) {
                        assert(before.circuits@.remove(id).dom().contains(x));
                        assert(self.pool@.circuits[x] == before.circuits@.remove(id)[x]);
                    } else {
                        assert(self.pool.circuits@ == self.pool@.circuits);
                    }
                }
            }
            i = i + 1;
        }
        proof {
            assert(list@.take(i as int) =~= list@);
            assert forall|id: u64| #[trigger] listed(list@, id) <==> old(self).unhealthy_now(id) by {
                if listed(list@, id) {
                    let k = choose|k: int| 0 <= k < list@.len() && (#[trigger] list@[k]).0 == id;
                    assert(list@.contains((list@[k].0, list@[k].1)));
                }
                if old(self).unhealthy_now(id) {
                    let e = (id, old(self).health_monitor.metrics@[id].status);
                    assert(list@.contains((e.0, e.1)));
                    let k = choose|k: int| 0 <= k < list@.len() && list@[k] == e;
                    assert(list@[k].0 == id);
                }
            }
        }
    }

    /// The active circuits that have been idle for too long, each once: those
    /// that the periodic cleanup releases
    pub fn stale_circuits(&self, now: Instant) -> (r: Vec<CircuitId>)
        ensures
            r@.no_duplicates(),
            forall|id: u64| #[trigger] r@.contains(id) <==> self.stale(id, now),
    {
        let ks = maps::keys(&self.active_circuits);
        let mut r: Vec<u64> = Vec::new();
        let mut i: usize = 0;
        proof {
            maps::lemma_seen_ends(ks@);
        }
        while i < ks.len()
            invariant
                i <= ks@.len(),
                ks@.no_duplicates(),
                ks@.to_set() == self.active_circuits@.dom(),
                r@.no_duplicates(),
                forall|id: u64| #[trigger]
                    r@.contains(id) <==> seen(ks@, i as int).contains(id) && self.stale(id, now),
            decreases ks@.len() - i,
        {
            proof {
                maps::lemma_seen_next(ks@, i as int);
            }
            let id: u64 = ks[i];
            match self.active_circuits.get(&id) {
                Some(c) => {
                    if now.duration_since(c.last_activity).nanos
                        > self.config.health_config.idle_timeout.nanos {
                        let ghost before = r@;
                        r.push(id);
                        proof {
                            maps::lemma_push_contains(before, id);
                        }
                    }
                },
                None => {},
            }
            i = i + 1;
        }
        proof {
            maps::lemma_seen_ends(ks@);
        }
        r
    }

    /// Whether the circuit is active and has been idle for too long.
    pub open spec fn stale(self, id: CircuitId, now: Instant) -> bool {
        self.active_circuits@.dom().contains(id) && elapsed(
            now,
            self.active_circuits@[id].last_activity,
        ) > self.config.health_config.idle_timeout.nanos
    }

    /// Releases one stale circuit: it is no longer active, goes back to the pool
    /// and leaves the health monitor
    pub fn release_stale<B: CircuitBuilder>(
        &mut self,
        builder: &B,
        circuit_id: CircuitId,
        now: Instant,
        pool_events: &mut Vec<PoolEvent>,
    )
        requires
            old(self).wf(),
            can_number(old(self).pool, old(self).pool.config.min_pool_size as int),
        ensures
            final(self).wf(),
            final(self).same_books(*old(self)),
            settled(builder, old(self).pool.next_id, final(self).pool@),
            follows(old(pool_events)@, final(pool_events)@),
            failures_explained(builder, old(pool_events)@, final(pool_events)@),
            old(self).pool.circuits@.dom().contains(circuit_id) && old(self).pool.spent(
                old(self).pool.circuits@[circuit_id],
                now,
            ) ==> closed_by(builder, circuit_id),
            final(self).active_circuits@ == old(self).active_circuits@.remove(circuit_id),
            old(self).pool.next_id <= final(self).pool.next_id <= old(self).pool.next_id
                + old(self).pool.config.min_pool_size,
            stale_released(
                old(self).supply(old(pool_events)@),
                circuit_id,
                final(self).supply(final(pool_events)@),
                now,
            ),
    {
        self.deactivate(circuit_id);
        let _ = self.pool.release_circuit(
            &mut self.health_monitor,
            builder,
            circuit_id,
            now,
            pool_events,
        );
        let ghost between = self.supply(pool_events@);
        self.health_monitor.unregister_circuit(circuit_id);
        assert(given_back(
            old(self).supply(old(pool_events)@),
            circuit_id,
            between,
            now,
        ));
    }

    /// One pass of the periodic cleanup: every stale circuit is released
    #[verifier::rlimit(30)]
    pub fn release_all_stale<B: CircuitBuilder>(
        &mut self,
        builder: &B,
        now: Instant,
        pool_events: &mut Vec<PoolEvent>,
    )
        requires
            old(self).wf(),
            can_number(
                old(self).pool,
                old(self).active_circuits@.len() * old(self).pool.config.min_pool_size,
            ),
        ensures
            final(self).wf(),
            final(self).same_books(*old(self)),
            settled(builder, old(self).pool.next_id, final(self).pool@),
            follows(old(pool_events)@, final(pool_events)@),
            failures_explained(builder, old(pool_events)@, final(pool_events)@),
            forall|id: u64| #[trigger]
                old(self).pool.circuits@.dom().contains(id) && !old(self).keeps(id, now)
                    ==> closed_by(builder, id),
            forall|id: u64| #[trigger]
                final(self).active_circuits@.dom().contains(id) <==> old(
                    self,
                ).active_circuits@.dom().contains(id) && !old(self).stale(id, now),
            forall|id: u64| #[trigger]
                final(self).active_circuits@.dom().contains(id)
                    ==> final(self).active_circuits@[id] == old(self).active_circuits@[id],
            forall|id: u64|
                id < old(self).pool.next_id && old(self).stale(id, now)
                    ==> !#[trigger] final(self).health_monitor.metrics@.dom().contains(id),
            forall|id: u64|
                id < old(self).pool.next_id ==> (
                #[trigger] final(self).pool.circuits@.dom().contains(id) <==> old(self).keeps(
                    id,
                    now,
                )),
            forall|id: u64|
                id < old(self).pool.next_id && #[trigger] final(self).pool.circuits@.dom().contains(
                    id,
                ) ==> final(self).pool.circuits@[id] == (if old(self).stale(id, now) {
                    old(self).pool.circuits@[id].freed()
                } else {
                    old(self).pool.circuits@[id]
                }),
            exists|list: Seq<u64>, states: Seq<Supply>| #[trigger]
                stale_released_in_turn(states, list, now) && list.no_duplicates() && (forall|id: u64|
                 #[trigger]
                    list.contains(id) <==> old(self).stale(id, now)) && states.first() == old(
                    self,
                ).supply(old(pool_events)@) && states.last() == final(self).supply(
                    final(pool_events)@,
                ),
    {
        let list = self.stale_circuits(now);
        let ghost mut states: Seq<Supply> = seq![self.supply(pool_events@)];
        assert(list@.take(0) =~= Seq::<u64>::empty());
        let ghost step = self.pool.config.min_pool_size as int;
        proof {
            list@.unique_seq_to_set();
            assert(list@.to_set().subset_of(self.active_circuits@.dom())) by {
                assert forall|id: u64| list@.to_set().contains(id) implies
                    self.active_circuits@.dom().contains(id) by {
                    assert(list@.contains(id));
                }
            }
            vstd::set_lib::lemma_len_subset(list@.to_set(), self.active_circuits@.dom());
            assert forall|k: int| 0 <= k < list@.len() implies #[trigger] list@[k]
                < self.pool.next_id by {
                assert(list@.contains(list@[k]));
                assert(self.active_circuits@.dom().contains(list@[k]));
            }
            maps::lemma_seen_ends(list@);
            assert(0 * step == 0) by (nonlinear_arith);
        }
        let mut i: usize = 0;
        assert(pool_events@.take(pool_events@.len() as int) =~= pool_events@);
        while i < list.len()
            invariant
                self.wf(),
                self.same_books(*old(self)),
                settled(builder, old(self).pool.next_id, self.pool@),
                follows(old(pool_events)@, pool_events@),
                failures_explained(builder, old(pool_events)@, pool_events@),
                forall|k: int| 0 <= k < list@.len() ==> #[trigger] list@[k]
                    < old(self).pool.next_id,
                forall|id: u64| #[trigger]
                    old(self).pool.circuits@.dom().contains(id) && seen(
                        list@,
                        i as int,
                    ).contains(id) && old(self).pool.spent(old(self).pool.circuits@[id], now)
                        ==> closed_by(builder, id),
                i <= list@.len(),
                list@.no_duplicates(),
                list@.len() <= old(self).active_circuits@.len(),
                step == old(self).pool.config.min_pool_size,
                self.pool.config == old(self).pool.config,
                old(self).pool.next_id <= self.pool.next_id <= old(self).pool.next_id + i * step,
                can_number(old(self).pool, old(self).active_circuits@.len() * step),
                states.len() > 0,
                states.first() == old(self).supply(old(pool_events)@),
                states.last() == self.supply(pool_events@),
                stale_released_in_turn(states, list@.take(i as int), now),
                forall|id: u64| #[trigger] list@.contains(id) <==> old(self).stale(id, now),
                forall|id: u64| #[trigger]
                    self.active_circuits@.dom().contains(id) <==> old(
                        self,
                    ).active_circuits@.dom().contains(id) && !seen(list@, i as int).contains(id),
                forall|id: u64| #[trigger]
                    self.active_circuits@.dom().contains(id) ==> self.active_circuits@[id] == old(
                        self,
                    ).active_circuits@[id],
                forall|id: u64|
                    id < old(self).pool.next_id && seen(list@, i as int).contains(id)
                        ==> !#[trigger] self.health_monitor.metrics@.dom().contains(id),
                forall|id: u64| #[trigger]
                    old(self).pool.circuits@.dom().contains(id) ==> id < old(self).pool.next_id,
                forall|id: u64|
                    id < old(self).pool.next_id ==> (#[trigger] self.pool.circuits@.dom().contains(
                        id,
                    ) <==> old(self).pool.circuits@.dom().contains(id) && (seen(
                        list@,
                        i as int,
                    ).contains(id) ==> !old(self).pool.spent(old(self).pool.circuits@[id], now))),
                forall|id: u64|
                    id < old(self).pool.next_id && #[trigger] self.pool.circuits@.dom().contains(id)
                        ==> self.pool.circuits@[id] == (if seen(list@, i as int).contains(id) {
                        old(self).pool.circuits@[id].freed()
                    } else {
                        old(self).pool.circuits@[id]
                    }),
            decreases list@.len() - i,
        {
            let id: u64 = list[i];
            proof {
                maps::lemma_seen_next(list@, i as int);
                assert(i * step + step == (i + 1) * step) by (nonlinear_arith);
                let active = old(self).active_circuits@.len() as int;
                assert((i + 1) * step <= active * step) by (nonlinear_arith)
                    requires
                        i + 1 <= active,
                        step >= 0,
                ;
                assert(!seen(list@, i as int).contains(id));
            }
            let ghost before = *self;
            let ghost said = pool_events@;
            self.release_stale(builder, id, now, pool_events);
            proof {
                let s0 = before.supply(said);
                let s1 = self.supply(pool_events@);
                let s = choose|s: Supply| #[trigger]
                    given_back(s0, id, s, now) && s1 == (Supply {
                        metrics: s.metrics.remove(id),
                        ..s
                    });
                lemma_given_back(
                    before.pool,
                    before.health_monitor.metrics@,
                    said,
                    id,
                    s.pool,
                    s.metrics,
                    s.events,
                    now,
                );
                lemma_explained_on(builder, old(pool_events)@, said, pool_events@);
                lemma_follows_on(old(pool_events)@, said, pool_events@);
                lemma_settled_given_back(builder, old(self).pool.next_id, s0, id, s, now);
                let done = list@.take(i as int);
                assert(list@.take(i + 1) =~= done.push(id));
                assert forall|k: int| 0 <= k < done.len() + 1 implies #[trigger] stale_released(
                    states.push(s1)[k],
                    done.push(id)[k],
                    states.push(s1)[k + 1],
                    now,
                ) by {
                    if k < done.len() {
                        assert(stale_released(states[k], done[k], states[k + 1], now));
                    }
                }
                states = states.push(s1);
            }
            i = i + 1;
        }
        proof {
            maps::lemma_seen_ends(list@);
            assert(list@.take(i as int) =~= list@);
        }
    }

    /// Whether the circuit stays in the pool when the stale ones are released.
    pub open spec fn keeps(self, id: CircuitId, now: Instant) -> bool {
        self.pool.circuits@.dom().contains(id) && (self.stale(id, now) ==> !self.pool.spent(
            self.pool.circuits@[id],
            now,
        ))
    }
}

/// The failure to acquire a circuit where as many are active as may be.
pub open spec fn too_many_circuits() -> ManagerFailure {
    ManagerFailure::NoCircuitAvailable("Too many concurrent circuits"@)
}

/// Whether the circuit was given back to the pool and has then left the health
/// monitor.
pub open spec fn stale_released(s0: Supply, id: CircuitId, s1: Supply, now: Instant) -> bool {
    exists|s: Supply| #[trigger]
        given_back(s0, id, s, now) && s1 == (Supply { metrics: s.metrics.remove(id), ..s })
}

/// Whether the circuits `ids` were given back in turn: `states` holds what there
/// was before each and at last.
pub open spec fn stale_released_in_turn(
    states: Seq<Supply>,
    ids: Seq<CircuitId>,
    now: Instant,
) -> bool {
    &&& states.len() == ids.len() + 1
    &&& forall|k: int|
        0 <= k < ids.len() ==> #[trigger] stale_released(states[k], ids[k], states[k + 1], now)
}

proof fn lemma_given_back(
    p0: CircuitPool,
    m0: Map<u64, CircuitMetrics>,
    e0: Seq<PoolEvent>,
    id: CircuitId,
    p1: PoolView,
    m1: Map<u64, CircuitMetrics>,
    e1: Seq<PoolEvent>,
    now: Instant,
)
    requires
        p0.wf(),
        given_back(
            Supply { pool: p0@, metrics: m0, events: e0 },
            id,
            Supply { pool: p1, metrics: m1, events: e1 },
            now,
        ),
    ensures
        forall|x: u64|
            x < p0.next_id ==> (#[trigger] p1.circuits.dom().contains(x)
                <==> p0.circuits@.dom().contains(x) && (x == id ==> !p0.spent(
                p0.circuits@[x],
                now,
            ))),
        forall|x: u64|
            x < p0.next_id && #[trigger] p1.circuits.dom().contains(x) ==> p1.circuits[x] == (if x
                == id {
                p0.circuits@[x].freed()
            } else {
                p0.circuits@[x]
            }),
        forall|x: u64|
            x < p0.next_id && x != id ==> (#[trigger] m1.dom().contains(x)
                <==> m0.dom().contains(x)),
{
    if p0.circuits@.dom().contains(id) && p0.spent(p0.circuits@[id], now) {
        let kept = p0.circuits@.remove(id);
        assert forall|x: u64| x < p0.next_id && #[trigger] p1.circuits.dom().contains(x) implies x
            != id && p1.circuits[x] == p0.circuits@[x] by {
            assert(kept.dom().contains(x));
        }
        assert forall|x: u64| x < p0.next_id implies (#[trigger] p1.circuits.dom().contains(x)
            <==> kept.dom().contains(x)) by {}
        assert forall|x: u64| x < p0.next_id && x != id implies (#[trigger] m1.dom().contains(x)
            <==> m0.dom().contains(x)) by {
            assert(m1.dom().contains(x) <==> m0.remove(id).dom().contains(x));
        }
    }
}

/// Whether `events` goes on from `before` with a change of status for each
/// entry of the list.
pub open spec fn announced(
    before: Seq<CircuitManagerEvent>,
    list: Seq<(u64, HealthStatus)>,
    events: Seq<CircuitManagerEvent>,
) -> bool
    decreases list.len(),
{
    if list.len() == 0 {
        events == before
    } else {
        &&& events.len() > 0
        &&& events.last() == (CircuitManagerEvent::HealthStatusChanged {
            circuit_id: list.last().0,
            new_status: list.last().1,
        })
        &&& announced(before, list.drop_last(), events.drop_last())
    }
}

/// The circuits of the list.
pub open spec fn ids_of(list: Seq<(u64, HealthStatus)>) -> Seq<CircuitId> {
    list.map_values(|entry: (u64, HealthStatus)| entry.0)
}

/// Whether an id is in the list.
pub open spec fn listed(list: Seq<(u64, HealthStatus)>, id: u64) -> bool {
    exists|k: int| 0 <= k < list.len() && (#[trigger] list[k]).0 == id
}

proof fn lemma_listed_next(list: Seq<(u64, HealthStatus)>, i: int)
    requires
        0 <= i < list.len(),
    ensures
        forall|id: u64| #[trigger]
            listed(list.take(i + 1), id) <==> listed(list.take(i), id) || id == list[i].0,
{
    assert forall|id: u64| #[trigger] listed(list.take(i + 1), id) <==> listed(list.take(i), id)
        || id == list[i].0 by {
        if listed(list.take(i), id) {
            let k = choose|k: int| 0 <= k < i && (#[trigger] list.take(i)[k]).0 == id;
            assert(list.take(i + 1)[k].0 == id);
        }
        assert(list.take(i + 1)[i] == list[i]);
        let more = list.take(i + 1);
        if listed(more, id) {
            let k = choose|k: int| 0 <= k < more.len() && (#[trigger] more[k]).0 == id;
            if k < i {
                assert(list.take(i)[k].0 == id);
            }
        }
    }
}

proof fn lemma_fewer_than_metrics(m: CircuitManager, list: Seq<(u64, HealthStatus)>)
    requires
        forall|i: int, j: int|
            0 <= i < j < list.len() ==> (#[trigger] list[i]).0 != (#[trigger] list[j]).0,
        forall|id: u64, s: HealthStatus| #[trigger]
            list.contains((id, s)) <==> m.unhealthy_now(id)
                && m.health_monitor.metrics@[id].status == s,
        m.health_monitor.metrics@.dom().finite(),
    ensures
        list.len() <= m.health_monitor.metrics@.len(),
{
    let ids = list.map_values(|e: (u64, HealthStatus)| e.0);
    assert(ids.no_duplicates()) by {
        assert forall|i: int, j: int| 0 <= i < ids.len() && 0 <= j < ids.len() && i != j implies ids[i]
            != ids[j] by {
            if i < j {
                assert(list[i].0 != list[j].0);
            } else {
                assert(list[j].0 != list[i].0);
            }
        }
    }
    ids.unique_seq_to_set();
    assert(ids.to_set().subset_of(m.health_monitor.metrics@.dom())) by {
        assert forall|id: u64| ids.to_set().contains(id) implies
            m.health_monitor.metrics@.dom().contains(id) by {
            let k = choose|k: int| 0 <= k < ids.len() && ids[k] == id;
            assert(list.contains((list[k].0, list[k].1)));
        }
    }
    vstd::set_lib::lemma_len_subset(ids.to_set(), m.health_monitor.metrics@.dom());
}

/// Whether the handle is that of a circuit of the pool: it has its path, its age
/// and its score.
pub open spec fn describes(handle: CircuitHandle, s: Supply) -> bool {
    let c = s.pool.circuits[handle.id];
    &&& s.pool.circuits.dom().contains(handle.id)
    &&& handle.path@ == c.path@
    &&& handle.created_at == c.created_at
    &&& handle.health_score == score_or_full(s.metrics, handle.id)
}

/// The score of a circuit, a full one where it is not known.
pub open spec fn score_or_full(metrics: Map<u64, CircuitMetrics>, id: CircuitId) -> u8 {
    if metrics.dom().contains(id) {
        metrics[id].health_score
    } else {
        100
    }
}

/// Whether `c` is an active circuit that has done nothing yet.
pub open spec fn is_fresh_active(
    c: ActiveCircuit,
    id: CircuitId,
    path: Seq<String>,
    now: Instant,
) -> bool {
    &&& c.id == id
    &&& c.streams@.len() == 0
    &&& c.created_at == now
    &&& c.last_activity == now
    &&& c.bytes_transferred == 0
    &&& c.request_count == 0
    &&& c.path@ == path
    &&& !c.is_closing
}

/// The active circuits after a request on one of them.
pub open spec fn after_request(
    active: Map<u64, ActiveCircuit>,
    id: CircuitId,
    bytes: u64,
    now: Instant,
) -> Map<u64, ActiveCircuit> {
    if active.dom().contains(id) {
        active.insert(
            id,
            ActiveCircuit {
                last_activity: now,
                bytes_transferred: (active[id].bytes_transferred + bytes) as u64,
                request_count: (active[id].request_count + 1) as u64,
                ..active[id]
            },
        )
    } else {
        active
    }
}

/// What follows a failure that has left a circuit in the given status.
pub open spec fn failure_step(active: bool, status: HealthStatus) -> FailureStep {
    if !active {
        FailureStep::Done
    } else if status == HealthStatus::Failed {
        FailureStep::Close
    } else {
        FailureStep::Notify(status)
    }
}

/// A failure has consequences exactly for an active circuit: one that has failed is
/// closed, and of any other it is told in what status it is.
pub proof fn law_what_follows_a_failure(active: bool, status: HealthStatus)
    ensures
        failure_step(active, status) is Done <==> !active,
        failure_step(active, status) is Close <==> active && status == HealthStatus::Failed,
        failure_step(active, status) matches FailureStep::Notify(s) ==> s == status && s
            != HealthStatus::Failed,
{
}

/// A request adds its bytes and counts once, on its circuit alone, and is the latest
/// activity of that; on a circuit that is not active it changes nothing.
pub proof fn law_requests_are_counted(
    active: Map<u64, ActiveCircuit>,
    id: CircuitId,
    other: CircuitId,
    bytes: u64,
    now: Instant,
)
    requires
        active.dom().contains(id) ==> active[id].bytes_transferred + bytes <= u64::MAX
            && active[id].request_count < u64::MAX,
        other != id,
    ensures
        ({
            let after = after_request(active, id, bytes, now);
            &&& after.dom() == active.dom()
            &&& active.dom().contains(id) ==> {
                &&& after[id].bytes_transferred == active[id].bytes_transferred + bytes
                &&& after[id].request_count == active[id].request_count + 1
                &&& after[id].last_activity == now
                &&& after[id].created_at == active[id].created_at
                &&& after[id].streams == active[id].streams
                &&& after[id].is_closing == active[id].is_closing
            }
            &&& after[other] == active[other]
            &&& !active.dom().contains(id) ==> after == active
        }),
{
    let after = after_request(active, id, bytes, now);
    assert(after.dom() =~= active.dom());
}

/// A circuit that was acquired is active and new, is in use in the pool, where it was
/// not before, and counts once; where none was, nothing is active that was not.
#[verifier::rlimit(40)]
pub proof fn law_acquired_circuits_are_active(
    before: CircuitManager,
    asked: Seq<PoolEvent>,
    queued: Seq<CircuitManagerEvent>,
    purpose: Seq<char>,
    now: Instant,
    r: Result<CircuitHandle, CircuitManagerError>,
    after: CircuitManager,
    said: Seq<PoolEvent>,
    sent: Seq<CircuitManagerEvent>,
)
    requires
        before.wf(),
        CircuitManager::takes(before, asked, queued, purpose, now, r, after, said, sent),
    ensures
        r matches Ok(handle) ==> {
            &&& after.active_circuits@.dom().contains(handle.id)
            &&& after.active_circuits@[handle.id].created_at == now
            &&& after.active_circuits@[handle.id].request_count == 0
            &&& after.pool.circuits@.dom().contains(handle.id)
            &&& after.pool.circuits@[handle.id].state == PoolCircuitState::InUse
            &&& before.pool.circuits@.dom().contains(handle.id)
                ==> before.pool.circuits@[handle.id].state != PoolCircuitState::InUse
            &&& after.total_created == before.total_created + 1
        },
        r is Err ==> after.active_circuits@ == before.active_circuits@ && after.total_created
            == before.total_created,
{
    if let Ok(handle) = r {
        law_circuits_in_use_are_not_handed_out(
            before.pool,
            before.supply(asked),
            before.health_monitor.config,
            now,
            handle.id,
            after.supply(said),
        );
    }
}

/// A circuit is in ill health exactly if it is active and known and its score is below
/// fifty.
pub proof fn law_who_is_unhealthy(manager: CircuitManager, id: CircuitId)
    requires
        manager.wf(),
    ensures
        manager.unhealthy_now(id) <==> manager.active_circuits@.dom().contains(id)
            && manager.health_monitor.metrics@.dom().contains(id)
            && manager.health_monitor.metrics@[id].health_score < 50,
{
}

/// A circuit that is not known has the full score of a hundred, and one that is has
/// its own.
pub proof fn law_unknown_circuits_have_full_scores(
    metrics: Map<u64, CircuitMetrics>,
    id: CircuitId,
)
    ensures
        !metrics.dom().contains(id) ==> score_or_full(metrics, id) == 100,
        metrics.dom().contains(id) ==> score_or_full(metrics, id) == metrics[id].health_score,
{
}

/// By default a hundred active circuits are as many as may be, and a circuit is stale
/// when it was silent for more than five minutes, and not before.
pub proof fn law_default_limits_of_a_manager(manager: CircuitManager, id: CircuitId, now: Instant)
    requires
        manager.config == default_manager_config(),
    ensures
        manager.at_limit() <==> manager.active_circuits@.len() >= 100,
        manager.stale(id, now) <==> manager.active_circuits@.dom().contains(id) && now.nanos
            - manager.active_circuits@[id].last_activity.nanos > secs(300),
{
}

/// Whether `event` is the closure of a circuit for the given reason.
pub open spec fn is_closing_event(
    event: CircuitManagerEvent,
    id: CircuitId,
    reason: Seq<char>,
) -> bool {
    event matches CircuitManagerEvent::CircuitClosed { circuit_id, reason: m } && circuit_id == id
        && m@ == reason
}

/// Circuit manager errors
#[derive(Debug, Clone)]
pub enum CircuitManagerError {
    /// The pool could not be filled.
    PoolInitializationFailed(String),
    /// There is no circuit.
    NoCircuitAvailable(String),
    /// There is no such circuit.
    CircuitNotFound(u64),
    /// The pool failed.
    PoolError(String),
    /// The health monitor failed.
    HealthMonitorError(String),
    /// Rotation failed.
    RotationFailed(String),
    /// Every circuit failed.
    AllCircuitsFailed,
}

/// The contents of a [`CircuitManagerError`].
pub enum ManagerFailure {
    /// The pool could not be filled.
    PoolInitializationFailed(Seq<char>),
    /// There is no circuit.
    NoCircuitAvailable(Seq<char>),
    /// There is no such circuit.
    CircuitNotFound(u64),
    /// The pool failed.
    PoolError(Seq<char>),
    /// The health monitor failed.
    HealthMonitorError(Seq<char>),
    /// Rotation failed.
    RotationFailed(Seq<char>),
    /// Every circuit failed.
    AllCircuitsFailed,
}

impl View for CircuitManagerError {
    type V = ManagerFailure;

    open spec fn view(&self) -> ManagerFailure {
        match self {
            CircuitManagerError::PoolInitializationFailed(m) => {
                ManagerFailure::PoolInitializationFailed(m@)
            },
            CircuitManagerError::NoCircuitAvailable(m) => ManagerFailure::NoCircuitAvailable(m@),
            CircuitManagerError::CircuitNotFound(id) => ManagerFailure::CircuitNotFound(*id),
            CircuitManagerError::PoolError(m) => ManagerFailure::PoolError(m@),
            CircuitManagerError::HealthMonitorError(m) => ManagerFailure::HealthMonitorError(m@),
            CircuitManagerError::RotationFailed(m) => ManagerFailure::RotationFailed(m@),
            CircuitManagerError::AllCircuitsFailed => ManagerFailure::AllCircuitsFailed,
        }
    }
}

impl ManagerFailure {
    /// The failure in words.
    pub open spec fn words(self) -> Seq<char> {
        match self {
            ManagerFailure::PoolInitializationFailed(m) => "Pool initialization failed: "@ + m,
            ManagerFailure::NoCircuitAvailable(m) => "No circuit available: "@ + m,
            ManagerFailure::CircuitNotFound(id) => "Circuit not found: "@ + decimal_text(id as nat),
            ManagerFailure::PoolError(m) => "Pool error: "@ + m,
            ManagerFailure::HealthMonitorError(m) => "Health monitor error: "@ + m,
            ManagerFailure::RotationFailed(m) => "Rotation failed: "@ + m,
            ManagerFailure::AllCircuitsFailed => "All circuits failed"@,
        }
    }
}

impl CircuitManagerError {
    /// The error in words.
    pub fn to_string(&self) -> (r: String)
        ensures
            r@ == self@.words(),
    {
        match self {
            CircuitManagerError::PoolInitializationFailed(m) => text::joined(
                "Pool initialization failed: ",
                m.as_str(),
            ),
            CircuitManagerError::NoCircuitAvailable(m) => text::joined(
                "No circuit available: ",
                m.as_str(),
            ),
            CircuitManagerError::CircuitNotFound(id) => text::joined(
                "Circuit not found: ",
                text::decimal(*id).as_str(),
            ),
            CircuitManagerError::PoolError(m) => text::joined("Pool error: ", m.as_str()),
            CircuitManagerError::HealthMonitorError(m) => text::joined(
                "Health monitor error: ",
                m.as_str(),
            ),
            CircuitManagerError::RotationFailed(m) => text::joined("Rotation failed: ", m.as_str()),
            CircuitManagerError::AllCircuitsFailed => "All circuits failed".to_owned(),
        }
    }
}

} // verus!
