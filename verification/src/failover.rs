//! Failover Module
//!
//! Automatic relay failover:
//! - Monitors relay health and connection status
//! - Automatically switches to backup relays on failure
//! - Asks for new relays when the local pool is exhausted
//! - Says when a relay's health is to be updated in the registry
//! - Maintains circuit continuity during relay switches
//!
//! The relay registry and the selector are services of the caller. The manager
//! says when they are to be asked, and takes their answers.

use crate::maps;
use crate::maps::{count, seen};
use crate::names::NameMap;
use crate::text;
use crate::text::decimal_text;
use crate::time::{elapsed, secs, Duration, Instant};
use std::collections::{HashMap, VecDeque};
use vstd::prelude::*;
use vstd::string::*;

verus! {

/// A relay, as the registry knows it.
#[derive(Debug)]
pub struct RelayInfo {
    /// Identity of the relay
    pub id: String,
    /// Network address
    pub address: String,
    /// Public key
    pub public_key: String,
    /// Bandwidth in bytes per second
    pub bandwidth: u64,
}

impl Clone for RelayInfo {
    fn clone(&self) -> (r: RelayInfo)
        ensures
            r == *self,
    {
        RelayInfo {
            id: self.id.clone(),
            address: self.address.clone(),
            public_key: self.public_key.clone(),
            bandwidth: self.bandwidth,
        }
    }
}

/// Failover manager for automatic relay recovery
pub struct FailoverManager {
    /// Active circuits and their relays
    pub active_circuits: HashMap<u32, CircuitInfo>,
    /// Failed relays with retry tracking
    pub failed_relays: NameMap<FailureInfo>,
    /// Available backup relays
    pub backup_pool: VecDeque<RelayInfo>,
    /// Minimum backup pool size
    pub min_backup_pool_size: usize,
    /// Maximum retry attempts per relay
    pub max_retries: u32,
    /// Circuit recovery timeout
    pub recovery_timeout: Duration,
    /// Health check interval
    pub health_check_interval: Duration,
    /// Whether to enable automatic recovery
    pub auto_recovery: bool,
    /// Maximum failures before marking relay unhealthy
    pub max_failures_before_unhealthy: u32,
    /// Cooldown before retrying failed relay
    pub failure_cooldown: Duration,
}

/// Circuit information tracked by failover manager
#[derive(Debug)]
pub struct CircuitInfo {
    /// Circuit ID
    pub circuit_id: u32,
    /// Primary relay
    pub primary_relay: RelayInfo,
    /// Backup relay (if assigned)
    pub backup_relay: Option<RelayInfo>,
    /// Circuit creation time
    pub created_at: Instant,
    /// Last activity time
    pub last_activity: Instant,
    /// Bytes transferred
    pub bytes_transferred: u64,
    /// Circuit status
    pub status: CircuitStatus,
}

impl Clone for CircuitInfo {
    fn clone(&self) -> (r: CircuitInfo)
        ensures
            r == *self,
    {
        CircuitInfo {
            circuit_id: self.circuit_id,
            primary_relay: self.primary_relay.clone(),
            backup_relay: match &self.backup_relay {
                Some(relay) => Some(relay.clone()),
                None => None,
            },
            created_at: self.created_at,
            last_activity: self.last_activity,
            bytes_transferred: self.bytes_transferred,
            status: self.status,
        }
    }
}

/// Circuit status
#[derive(Debug, Clone, Copy, PartialEq, Eq, Structural)]
pub enum CircuitStatus {
    /// Circuit is active and healthy
    Active,
    /// Circuit is degrading (high latency/packet loss)
    Degraded,
    /// Circuit has failed
    Failed,
    /// Circuit is being recovered
    Recovering,
    /// Circuit has been closed
    Closed,
}

/// Failure information for a relay
#[derive(Debug, Clone)]
pub struct FailureInfo {
    /// The relay
    pub relay_id: String,
    /// How often it has failed
    pub failure_count: u32,
    /// When it failed last
    pub last_failure: Instant,
    /// How it failed lately
    pub failure_types: VecDeque<FailureType>,
    /// How often it has failed in a row
    pub consecutive_failures: u32,
}

/// The contents of a [`FailureInfo`].
pub struct FailureView {
    /// The relay
    pub relay_id: Seq<char>,
    /// How often it has failed
    pub failure_count: u32,
    /// When it failed last
    pub last_failure: Instant,
    /// How it failed lately
    pub failure_types: Seq<FailureType>,
    /// How often it has failed in a row
    pub consecutive_failures: u32,
}

impl View for FailureInfo {
    type V = FailureView;

    open spec fn view(&self) -> FailureView {
        FailureView {
            relay_id: self.relay_id@,
            failure_count: self.failure_count,
            last_failure: self.last_failure,
            failure_types: self.failure_types@,
            consecutive_failures: self.consecutive_failures,
        }
    }
}

/// Types of failures that can occur
#[derive(Debug, Clone, Copy, PartialEq, Eq, Structural)]
pub enum FailureType {
    /// Connection refused or timeout
    ConnectionFailed,
    /// Timeout specifically
    Timeout,
    /// Protocol error (invalid messages)
    ProtocolError,
    /// Authentication failure
    AuthenticationFailed,
    /// Relay explicitly rejected connection
    Rejected,
    /// High latency detected
    HighLatency,
    /// Packet loss detected
    PacketLoss,
    /// Relay reported as unhealthy
    Unhealthy,
}

/// The types of failures that the relay selector knows.
#[derive(Debug, Clone, Copy, PartialEq, Eq, Structural)]
pub enum SelectorFailure {
    /// Connection failed.
    ConnectionFailed,
    /// Timeout.
    Timeout,
    /// Protocol error.
    ProtocolError,
    /// Authentication failed.
    AuthenticationFailed,
    /// The relay rejected the connection.
    RelayRejected,
}

/// The selector's type for `ft`; what it does not know is a failed connection.
pub open spec fn selector_failure(ft: FailureType) -> SelectorFailure {
    match ft {
        FailureType::Timeout => SelectorFailure::Timeout,
        FailureType::ProtocolError => SelectorFailure::ProtocolError,
        FailureType::AuthenticationFailed => SelectorFailure::AuthenticationFailed,
        FailureType::Rejected => SelectorFailure::RelayRejected,
        _ => SelectorFailure::ConnectionFailed,
    }
}

/// Convert a failure type to the selector's
pub fn to_selector_failure_type(ft: FailureType) -> (r: SelectorFailure)
    ensures
        r == selector_failure(ft),
{
    match ft {
        FailureType::ConnectionFailed => SelectorFailure::ConnectionFailed,
        FailureType::Timeout => SelectorFailure::Timeout,
        FailureType::ProtocolError => SelectorFailure::ProtocolError,
        FailureType::AuthenticationFailed => SelectorFailure::AuthenticationFailed,
        FailureType::Rejected => SelectorFailure::RelayRejected,
        _ => SelectorFailure::ConnectionFailed,
    }
}

/// Failover events
#[derive(Debug, Clone)]
pub enum FailoverEvent {
    /// Circuit was created
    CircuitCreated {
        /// The circuit.
        circuit_id: u32,
        /// Its relay.
        relay_id: String,
    },
    /// Circuit failed
    CircuitFailed {
        /// The circuit.
        circuit_id: u32,
        /// Its relay.
        relay_id: String,
        /// How it failed.
        reason: FailureType,
    },
    /// Failover initiated
    FailoverStarted {
        /// The circuit.
        circuit_id: u32,
        /// The relay that failed.
        old_relay: String,
        /// The relay in its place.
        new_relay: String,
    },
    /// Failover completed successfully
    FailoverCompleted {
        /// The circuit.
        circuit_id: u32,
        /// Its relay now.
        new_relay: String,
    },
    /// Failover failed
    FailoverFailed {
        /// The circuit.
        circuit_id: u32,
        /// What went wrong.
        error: String,
    },
    /// Relay marked as unhealthy
    RelayUnhealthy {
        /// The relay.
        relay_id: String,
    },
    /// Relay recovered
    RelayRecovered {
        /// The relay.
        relay_id: String,
    },
    /// Backup pool refilled
    BackupPoolRefilled {
        /// How many relays came.
        count: usize,
    },
}

/// The contents of a [`FailoverEvent`].
pub enum EventView {
    /// Circuit was created
    CircuitCreated {
        /// The circuit.
        circuit_id: u32,
        /// Its relay.
        relay_id: Seq<char>,
    },
    /// Circuit failed
    CircuitFailed {
        /// The circuit.
        circuit_id: u32,
        /// Its relay.
        relay_id: Seq<char>,
        /// How it failed.
        reason: FailureType,
    },
    /// Failover initiated
    FailoverStarted {
        /// The circuit.
        circuit_id: u32,
        /// The relay that failed.
        old_relay: Seq<char>,
        /// The relay in its place.
        new_relay: Seq<char>,
    },
    /// Failover completed successfully
    FailoverCompleted {
        /// The circuit.
        circuit_id: u32,
        /// Its relay now.
        new_relay: Seq<char>,
    },
    /// Failover failed
    FailoverFailed {
        /// The circuit.
        circuit_id: u32,
        /// What went wrong.
        error: Seq<char>,
    },
    /// Relay marked as unhealthy
    RelayUnhealthy {
        /// The relay.
        relay_id: Seq<char>,
    },
    /// Relay recovered
    RelayRecovered {
        /// The relay.
        relay_id: Seq<char>,
    },
    /// Backup pool refilled
    BackupPoolRefilled {
        /// How many relays came.
        count: usize,
    },
}

impl View for FailoverEvent {
    type V = EventView;

    open spec fn view(&self) -> EventView {
        match *self {
            FailoverEvent::CircuitCreated { circuit_id, relay_id } => EventView::CircuitCreated {
                circuit_id,
                relay_id: relay_id@,
            },
            FailoverEvent::CircuitFailed { circuit_id, relay_id, reason } =>
                EventView::CircuitFailed { circuit_id, relay_id: relay_id@, reason },
            FailoverEvent::FailoverStarted { circuit_id, old_relay, new_relay } =>
                EventView::FailoverStarted {
                circuit_id,
                old_relay: old_relay@,
                new_relay: new_relay@,
            },
            FailoverEvent::FailoverCompleted { circuit_id, new_relay } =>
                EventView::FailoverCompleted { circuit_id, new_relay: new_relay@ },
            FailoverEvent::FailoverFailed { circuit_id, error } => EventView::FailoverFailed {
                circuit_id,
                error: error@,
            },
            FailoverEvent::RelayUnhealthy { relay_id } => EventView::RelayUnhealthy {
                relay_id: relay_id@,
            },
            FailoverEvent::RelayRecovered { relay_id } => EventView::RelayRecovered {
                relay_id: relay_id@,
            },
            FailoverEvent::BackupPoolRefilled { count } => EventView::BackupPoolRefilled { count },
        }
    }
}

/// The contents of events, in order.
pub open spec fn told(events: Seq<FailoverEvent>) -> Seq<EventView> {
    events.map_values(|e: FailoverEvent| e@)
}

proof fn lemma_told_push(events: Seq<FailoverEvent>, e: FailoverEvent)
    ensures
        told(events.push(e)) == told(events).push(e@),
{
    assert(told(events.push(e)) =~= told(events).push(e@));
}

/// Failover configuration
#[derive(Debug, Clone, Copy, PartialEq, Eq, Structural)]
pub struct FailoverConfig {
    /// Minimum backup pool size
    pub min_backup_pool_size: usize,
    /// Maximum retry attempts per relay
    pub max_retries: u32,
    /// Circuit recovery timeout
    pub recovery_timeout: Duration,
    /// Health check interval
    pub health_check_interval: Duration,
    /// Enable automatic recovery
    pub auto_recovery: bool,
    /// Maximum failures before marking relay unhealthy
    pub max_failures_before_unhealthy: u32,
    /// Cooldown before retrying failed relay
    pub failure_cooldown: Duration,
}

/// The default configuration: five backups, three retries, thirty seconds to
/// recover, a check every minute, three failures, five minutes of cooldown.
pub open spec fn default_failover_config() -> FailoverConfig {
    FailoverConfig {
        min_backup_pool_size: 5,
        max_retries: 3,
        recovery_timeout: Duration { nanos: 30_000_000_000 },
        health_check_interval: Duration { nanos: 60_000_000_000 },
        auto_recovery: true,
        max_failures_before_unhealthy: 3,
        failure_cooldown: Duration { nanos: 300_000_000_000 },
    }
}

impl Default for FailoverConfig {
    fn default() -> (r: FailoverConfig)
        ensures
            r == default_failover_config(),
    {
        FailoverConfig {
            min_backup_pool_size: 5,
            max_retries: 3,
            recovery_timeout: Duration::from_secs(30),
            health_check_interval: Duration::from_secs(60),
            auto_recovery: true,
            max_failures_before_unhealthy: 3,
            failure_cooldown: Duration::from_secs(300),
        }
    }
}

/// Failover result
#[derive(Debug, Clone)]
pub enum FailoverResult {
    /// Failover succeeded
    Success {
        /// The relay in place of the failed one.
        new_relay: RelayInfo,
    },
    /// Failover failed, no relays available
    NoRelaysAvailable,
    /// Failover failed, retry limit reached
    RetryLimitReached,
    /// Failover timeout
    Timeout,
}

/// Failover errors
#[derive(Debug, Clone)]
pub enum FailoverError {
    /// There is no such circuit.
    CircuitNotFound(u32),
    /// No healthy relay is left.
    NoHealthyRelays,
    /// Failover took too long.
    FailoverTimeout,
    /// The registry failed.
    RegistryError(String),
    /// The selector failed.
    SelectorError(String),
    /// Recovery failed.
    RecoveryFailed(String),
}

impl FailoverError {
    /// The error in words.
    pub open spec fn words(self) -> Seq<char> {
        match self {
            FailoverError::CircuitNotFound(id) => "Circuit not found: "@ + decimal_text(id as nat),
            FailoverError::NoHealthyRelays => "No healthy relays available"@,
            FailoverError::FailoverTimeout => "Failover timeout"@,
            FailoverError::RegistryError(m) => "Registry error: "@ + m@,
            FailoverError::SelectorError(m) => "Selector error: "@ + m@,
            FailoverError::RecoveryFailed(m) => "Recovery failed: "@ + m@,
        }
    }

    /// The error in words.
    pub fn to_string(&self) -> (r: String)
        ensures
            r@ == self.words(),
    {
        match self {
            FailoverError::CircuitNotFound(id) => text::joined(
                "Circuit not found: ",
                text::decimal(*id as u64).as_str(),
            ),
            FailoverError::NoHealthyRelays => "No healthy relays available".to_owned(),
            FailoverError::FailoverTimeout => "Failover timeout".to_owned(),
            FailoverError::RegistryError(m) => text::joined("Registry error: ", m.as_str()),
            FailoverError::SelectorError(m) => text::joined("Selector error: ", m.as_str()),
            FailoverError::RecoveryFailed(m) => text::joined("Recovery failed: ", m.as_str()),
        }
    }
}

/// How many failure types are kept for a relay.
pub const MAX_FAILURE_TYPES: usize = 10;

/// The record of a relay's failures after one more.
pub open spec fn after_failure(
    before: Option<FailureView>,
    relay_id: Seq<char>,
    ft: FailureType,
    now: Instant,
) -> FailureView {
    let v = match before {
        Some(v) => v,
        None => FailureView {
            relay_id,
            failure_count: 0,
            last_failure: now,
            failure_types: Seq::empty(),
            consecutive_failures: 0,
        },
    };
    let types = v.failure_types.push(ft);
    FailureView {
        failure_count: (v.failure_count + 1) as u32,
        consecutive_failures: (v.consecutive_failures + 1) as u32,
        last_failure: now,
        failure_types: if types.len() > MAX_FAILURE_TYPES {
            types.skip(types.len() - MAX_FAILURE_TYPES)
        } else {
            types
        },
        ..v
    }
}

/// What the next step of a failover is.
#[derive(Debug, Clone)]
pub enum FailoverStep {
    /// The circuit uses its backup. The backup pool is to be refilled where
    /// `refill` says so.
    UseBackup {
        /// The backup.
        relay: RelayInfo,
        /// Whether the pool has run low.
        refill: bool,
    },
    /// The selector is to be asked for a healthy relay other than the failed
    /// one.
    AskSelector,
}

/// What a failure of a circuit calls for.
#[derive(Debug, Clone)]
pub struct FailureReport {
    /// The relay that failed.
    pub relay_id: String,
    /// What the selector is to be told.
    pub selector_failure: SelectorFailure,
    /// Whether the registry is to mark the relay as degraded, and the event of
    /// its ill health to be sent.
    pub unhealthy: bool,
}

impl FailoverManager {
    /// Whether every circuit is filed under its number and the records of
    /// failed relays are sound.
    pub open spec fn wf(self) -> bool {
        &&& self.failed_relays.wf()
        &&& forall|id: u32| #[trigger]
            self.active_circuits@.dom().contains(id) ==> self.active_circuits@[id].circuit_id == id
        &&& forall|name: Seq<char>| #[trigger]
            self.failed_relays@.dom().contains(name)
                ==> self.failed_relays@[name].failure_types@.len() <= MAX_FAILURE_TYPES
    }

    /// Whether the settings are those of `other`.
    pub open spec fn same_settings(self, other: FailoverManager) -> bool {
        &&& self.min_backup_pool_size == other.min_backup_pool_size
        &&& self.max_retries == other.max_retries
        &&& self.recovery_timeout == other.recovery_timeout
        &&& self.health_check_interval == other.health_check_interval
        &&& self.auto_recovery == other.auto_recovery
        &&& self.max_failures_before_unhealthy == other.max_failures_before_unhealthy
        &&& self.failure_cooldown == other.failure_cooldown
    }

    /// Whether the settings are those of a configuration.
    pub open spec fn configured(self, config: FailoverConfig) -> bool {
        &&& self.min_backup_pool_size == config.min_backup_pool_size
        &&& self.max_retries == config.max_retries
        &&& self.recovery_timeout == config.recovery_timeout
        &&& self.health_check_interval == config.health_check_interval
        &&& self.auto_recovery == config.auto_recovery
        &&& self.max_failures_before_unhealthy == config.max_failures_before_unhealthy
        &&& self.failure_cooldown == config.failure_cooldown
    }

    /// Whether so many failures in a row make a relay count as unhealthy.
    pub open spec fn too_many(self, consecutive_failures: u32) -> bool {
        consecutive_failures >= self.max_failures_before_unhealthy
    }

    /// What is known of the failures of a relay.
    pub open spec fn failures_of(self, relay_id: Seq<char>) -> Option<FailureView> {
        if self.failed_relays@.dom().contains(relay_id) {
            Some(self.failed_relays@[relay_id]@)
        } else {
            None
        }
    }

    /// Whether one more failure of the relay can be counted.
    pub open spec fn can_count_failure(self, relay_id: Seq<char>) -> bool {
        self.failures_of(relay_id) matches Some(v) ==> v.failure_count < u32::MAX
            && v.consecutive_failures < u32::MAX
    }

    /// Create a new failover manager
    pub fn new() -> (r: FailoverManager)
        ensures
            r.wf(),
            r.active_circuits@ == Map::<u32, CircuitInfo>::empty(),
            r.failed_relays@ == Map::<Seq<char>, FailureInfo>::empty(),
            r.backup_pool@ == Seq::<RelayInfo>::empty(),
            r.configured(default_failover_config()),
    {
        Self::with_config(FailoverConfig::default())
    }

    /// Create with configuration
    pub fn with_config(config: FailoverConfig) -> (r: FailoverManager)
        ensures
            r.wf(),
            r.active_circuits@ == Map::<u32, CircuitInfo>::empty(),
            r.failed_relays@ == Map::<Seq<char>, FailureInfo>::empty(),
            r.backup_pool@ == Seq::<RelayInfo>::empty(),
            r.configured(config),
    {
        FailoverManager {
            active_circuits: HashMap::new(),
            failed_relays: NameMap::new(),
            backup_pool: VecDeque::new(),
            min_backup_pool_size: config.min_backup_pool_size,
            max_retries: config.max_retries,
            recovery_timeout: config.recovery_timeout,
            health_check_interval: config.health_check_interval,
            auto_recovery: config.auto_recovery,
            max_failures_before_unhealthy: config.max_failures_before_unhealthy,
            failure_cooldown: config.failure_cooldown,
        }
    }

    /// The circuits after a registration.
    pub open spec fn with_circuit(self, circuit_id: u32, relay: RelayInfo, now: Instant) -> Map<
        u32,
        CircuitInfo,
    > {
        self.active_circuits@.insert(
            circuit_id,
            CircuitInfo {
                circuit_id,
                primary_relay: relay,
                backup_relay: self.next_backup(),
                created_at: now,
                last_activity: now,
                bytes_transferred: 0,
                status: CircuitStatus::Active,
            },
        )
    }

    /// The circuits after activity on one of them: a degraded one becomes active
    /// again, and one that is not known changes nothing.
    pub open spec fn with_activity(self, circuit_id: u32, bytes: u64, now: Instant) -> Map<
        u32,
        CircuitInfo,
    > {
        if self.active_circuits@.dom().contains(circuit_id) {
            let c = self.active_circuits@[circuit_id];
            self.active_circuits@.insert(
                circuit_id,
                CircuitInfo {
                    last_activity: now,
                    bytes_transferred: (c.bytes_transferred + bytes) as u64,
                    status: if c.status == CircuitStatus::Degraded {
                        CircuitStatus::Active
                    } else {
                        c.status
                    },
                    ..c
                },
            )
        } else {
            self.active_circuits@
        }
    }

    /// Register a new circuit, with a backup where there is one. Returns
    /// whether the backup pool is to be refilled, and the event to send.
    pub fn register_circuit(&mut self, circuit_id: u32, relay: RelayInfo, now: Instant) -> (r: (
        bool,
        FailoverEvent,
    ))
        requires
            old(self).wf(),
        ensures
            final(self).wf(),
            final(self).same_settings(*old(self)),
            final(self).failed_relays == old(self).failed_relays,
            final(self).active_circuits@ == old(self).with_circuit(circuit_id, relay, now),
            final(self).backup_pool@ == old(self).pool_after_pop(),
            r.0 == old(self).runs_low(),
            r.1 == (FailoverEvent::CircuitCreated { circuit_id, relay_id: relay.id }),
    {
        let relay_id = relay.id.clone();
        self.active_circuits.insert(
            circuit_id,
            CircuitInfo {
                circuit_id,
                primary_relay: relay,
                backup_relay: None,
                created_at: now,
                last_activity: now,
                bytes_transferred: 0,
                status: CircuitStatus::Active,
            },
        );
        let refill = self.assign_backup_relay(circuit_id);
        assert(self.active_circuits@ =~= old(self).with_circuit(circuit_id, relay, now));
        (refill, FailoverEvent::CircuitCreated { circuit_id, relay_id })
    }

    /// The backup that comes next, if there is one.
    pub open spec fn next_backup(self) -> Option<RelayInfo> {
        if self.backup_pool@.len() > 0 {
            Some(self.backup_pool@[0])
        } else {
            None
        }
    }

    /// The backup pool without its first relay.
    pub open spec fn pool_after_pop(self) -> Seq<RelayInfo> {
        if self.backup_pool@.len() > 0 {
            self.backup_pool@.skip(1)
        } else {
            self.backup_pool@
        }
    }

    /// Whether taking a backup leaves less than half of the minimum.
    pub open spec fn runs_low(self) -> bool {
        self.backup_pool@.len() > 0 && self.backup_pool@.len() - 1 < self.min_backup_pool_size as int
            / 2
    }

    /// Gives a circuit the next backup. Returns whether the pool is to be
    /// refilled.
    pub fn assign_backup_relay(&mut self, circuit_id: u32) -> (r: bool)
        requires
            old(self).wf(),
        ensures
            final(self).wf(),
            final(self).same_settings(*old(self)),
            final(self).failed_relays == old(self).failed_relays,
            final(self).backup_pool@ == old(self).pool_after_pop(),
            r == old(self).runs_low(),
            final(self).active_circuits@ == (if old(self).backup_pool@.len() > 0 && old(
                self,
            ).active_circuits@.dom().contains(circuit_id) {
                old(self).active_circuits@.insert(
                    circuit_id,
                    CircuitInfo {
                        backup_relay: Some(old(self).backup_pool@[0]),
                        ..old(self).active_circuits@[circuit_id]
                    },
                )
            } else {
                old(self).active_circuits@
            }),
    {
        match self.backup_pool.pop_front() {
            None => {
                assert(self.backup_pool@ =~= old(self).pool_after_pop());
                false
            },
            Some(backup) => {
                assert(self.backup_pool@ =~= old(self).pool_after_pop());
                let refill = self.backup_pool.len() < self.min_backup_pool_size / 2;
                match self.active_circuits.remove(&circuit_id) {
                    Some(mut c) => {
                        c.backup_relay = Some(backup);
                        self.active_circuits.insert(circuit_id, c);
                        assert(self.active_circuits@ =~= old(self).active_circuits@.insert(
                            circuit_id,
                            c,
                        ));
                    },
                    None => {
                        assert(self.active_circuits@ =~= old(self).active_circuits@);
                    },
                }
                refill
            },
        }
    }

    /// Counts a failure of a relay. Returns whether it has failed too many times
    /// in a row.
    pub fn record_relay_failure(
        &mut self,
        relay_id: &str,
        failure_type: FailureType,
        now: Instant,
    ) -> (r: bool)
        requires
            old(self).wf(),
            old(self).can_count_failure(relay_id@),
        ensures
            final(self).wf(),
            final(self).same_settings(*old(self)),
            final(self).active_circuits == old(self).active_circuits,
            final(self).backup_pool == old(self).backup_pool,
            final(self).failed_relays@.dom() == old(self).failed_relays@.dom().insert(relay_id@),
            final(self).failed_relays@.remove(relay_id@) == old(self).failed_relays@.remove(
                relay_id@,
            ),
            final(self).failed_relays@[relay_id@]@ == after_failure(
                old(self).failures_of(relay_id@),
                relay_id@,
                failure_type,
                now,
            ),
            r == old(self).too_many(final(self).failed_relays@[relay_id@].consecutive_failures),
    {
        let mut info = match self.failed_relays.remove(relay_id) {
            Some(info) => info,
            None => FailureInfo {
                relay_id: relay_id.to_owned(),
                failure_count: 0,
                last_failure: now,
                failure_types: VecDeque::new(),
                consecutive_failures: 0,
            },
        };
        info.failure_count = info.failure_count + 1;
        info.consecutive_failures = info.consecutive_failures + 1;
        info.last_failure = now;
        let ghost types = info.failure_types@.push(failure_type);
        info.failure_types.push_back(failure_type);
        if info.failure_types.len() > MAX_FAILURE_TYPES {
            info.failure_types.pop_front();
            assert(info.failure_types@ =~= types.skip(types.len() - MAX_FAILURE_TYPES));
        }
        let unhealthy = info.consecutive_failures >= self.max_failures_before_unhealthy;
        self.failed_relays.insert(relay_id, info);
        proof {
            assert(self.failed_relays@.remove(relay_id@) =~= old(self).failed_relays@.remove(
                relay_id@,
            ));
            assert(self.failed_relays@.dom() =~= old(self).failed_relays@.dom().insert(relay_id@));
        }
        unhealthy
    }

    /// Whether one more failure of a circuit can be counted: a circuit that is not
    /// known has none
    pub fn can_report_failure(&self, circuit_id: u32) -> (r: bool)
        requires
            self.wf(),
        ensures
            r == (self.active_circuits@.dom().contains(circuit_id) ==> self.can_count_failure(
                self.active_circuits@[circuit_id].primary_relay.id@,
            )),
    {
        match self.active_circuits.get(&circuit_id) {
            Some(c) => match self.failed_relays.get(c.primary_relay.id.as_str()) {
                Some(info) => info.failure_count < u32::MAX && info.consecutive_failures
                    < u32::MAX,
                None => true,
            },
            None => true,
        }
    }

    /// Takes a failure of a circuit: the circuit has failed, and its relay has
    /// failed once more.
    pub fn begin_failure(&mut self, circuit_id: u32, failure_type: FailureType, now: Instant) -> (r:
        Result<FailureReport, FailoverError>)
        requires
            old(self).wf(),
            old(self).active_circuits@.dom().contains(circuit_id) ==> old(self).can_count_failure(
                old(self).active_circuits@[circuit_id].primary_relay.id@,
            ),
        ensures
            final(self).wf(),
            final(self).same_settings(*old(self)),
            final(self).backup_pool == old(self).backup_pool,
            if old(self).active_circuits@.dom().contains(circuit_id) {
                let relay = old(self).active_circuits@[circuit_id].primary_relay.id@;
                &&& r matches Ok(report) && report.relay_id@ == relay && report.selector_failure
                    == selector_failure(failure_type) && report.unhealthy == old(self).too_many(
                    final(self).failed_relays@[relay].consecutive_failures,
                )
                &&& final(self).active_circuits@ == old(self).active_circuits@.insert(
                    circuit_id,
                    CircuitInfo {
                        status: CircuitStatus::Failed,
                        ..old(self).active_circuits@[circuit_id]
                    },
                )
                &&& final(self).failed_relays@.dom() == old(self).failed_relays@.dom().insert(
                    relay,
                )
                &&& final(self).failed_relays@.remove(relay) == old(self).failed_relays@.remove(
                    relay,
                )
                &&& final(self).failed_relays@[relay]@ == after_failure(
                    old(self).failures_of(relay),
                    relay,
                    failure_type,
                    now,
                )
            } else {
                &&& r == Err::<FailureReport, FailoverError>(
                    FailoverError::CircuitNotFound(circuit_id),
                )
                &&& final(self).active_circuits@ == old(self).active_circuits@
                &&& final(self).failed_relays == old(self).failed_relays
            },
    {
        let relay_id = match self.active_circuits.remove(&circuit_id) {
            None => {
                assert(self.active_circuits@ =~= old(self).active_circuits@);
                return Err(FailoverError::CircuitNotFound(circuit_id));
            },
            Some(mut c) => {
                let relay_id = c.primary_relay.id.clone();
                c.status = CircuitStatus::Failed;
                self.active_circuits.insert(circuit_id, c);
                assert(self.active_circuits@ =~= old(self).active_circuits@.insert(circuit_id, c));
                relay_id
            },
        };
        let unhealthy = self.record_relay_failure(relay_id.as_str(), failure_type, now);
        Ok(
            FailureReport {
                relay_id,
                selector_failure: to_selector_failure_type(failure_type),
                unhealthy,
            },
        )
    }

    /// Starts the failover of a circuit: its backup takes over, unless it is
    /// the failed relay itself.
    pub fn begin_failover(&mut self, circuit_id: u32, failed_relay_id: &str) -> (r: Result<
        FailoverStep,
        FailoverError,
    >)
        requires
            old(self).wf(),
        ensures
            final(self).wf(),
            final(self).same_settings(*old(self)),
            final(self).failed_relays == old(self).failed_relays,
            if !old(self).active_circuits@.dom().contains(circuit_id) {
                &&& r == Err::<FailoverStep, FailoverError>(
                    FailoverError::CircuitNotFound(circuit_id),
                )
                &&& final(self).active_circuits@ == old(self).active_circuits@
                &&& final(self).backup_pool == old(self).backup_pool
            } else {
                let c = old(self).active_circuits@[circuit_id];
                if c.backup_relay is Some && c.backup_relay->Some_0.id@ != failed_relay_id@ {
                    &&& r == Ok::<FailoverStep, FailoverError>(
                        FailoverStep::UseBackup {
                            relay: c.backup_relay->Some_0,
                            refill: old(self).runs_low(),
                        },
                    )
                    &&& final(self).active_circuits@ == old(self).active_circuits@.insert(
                        circuit_id,
                        CircuitInfo {
                            primary_relay: c.backup_relay->Some_0,
                            backup_relay: old(self).next_backup(),
                            status: CircuitStatus::Recovering,
                            ..c
                        },
                    )
                    &&& final(self).backup_pool@ == old(self).pool_after_pop()
                } else {
                    &&& r == Ok::<FailoverStep, FailoverError>(FailoverStep::AskSelector)
                    &&& final(self).active_circuits@ == old(self).active_circuits@.insert(
                        circuit_id,
                        CircuitInfo { backup_relay: None, ..c },
                    )
                    &&& final(self).backup_pool == old(self).backup_pool
                }
            },
    {
        let mut c = match self.active_circuits.remove(&circuit_id) {
            None => {
                assert(self.active_circuits@ =~= old(self).active_circuits@);
                return Err(FailoverError::CircuitNotFound(circuit_id));
            },
            Some(c) => c,
        };
        let backup = c.backup_relay.take();
        match backup {
            Some(relay) => {
                if !text::same(relay.id.as_str(), failed_relay_id) {
                    c.primary_relay = relay.clone();
                    c.status = CircuitStatus::Recovering;
                    self.active_circuits.insert(circuit_id, c);
                    let refill = self.assign_backup_relay(circuit_id);
                    assert(self.active_circuits@ =~= old(self).active_circuits@.insert(
                        circuit_id,
                        CircuitInfo {
                            primary_relay: relay,
                            backup_relay: old(self).next_backup(),
                            status: CircuitStatus::Recovering,
                            ..old(self).active_circuits@[circuit_id]
                        },
                    ));
                    return Ok(FailoverStep::UseBackup { relay, refill });
                }
            },
            None => {},
        }
        self.active_circuits.insert(circuit_id, c);
        assert(self.active_circuits@ =~= old(self).active_circuits@.insert(
            circuit_id,
            CircuitInfo { backup_relay: None, ..old(self).active_circuits@[circuit_id] },
        ));
        Ok(FailoverStep::AskSelector)
    }

    /// Takes the selector's answer to a failover: the relay in place of the
    /// failed one, if it found one. The event to send is the start of the
    /// failover.
    pub fn finish_failover(
        &mut self,
        circuit_id: u32,
        failed_relay_id: &str,
        selection: Option<RelayInfo>,
    ) -> (r: Result<(RelayInfo, FailoverEvent), FailoverError>)
        requires
            old(self).wf(),
        ensures
            final(self).wf(),
            final(self).same_settings(*old(self)),
            final(self).failed_relays == old(self).failed_relays,
            final(self).backup_pool == old(self).backup_pool,
            match selection {
                None => {
                    &&& r == Err::<(RelayInfo, FailoverEvent), FailoverError>(
                        FailoverError::NoHealthyRelays,
                    )
                    &&& final(self).active_circuits@ == old(self).active_circuits@
                },
                Some(relay) => {
                    &&& r matches Ok((new, event)) && new == relay && event@ == (
                    EventView::FailoverStarted {
                        circuit_id,
                        old_relay: failed_relay_id@,
                        new_relay: relay.id@,
                    })
                    &&& final(self).active_circuits@ == (if old(
                        self,
                    ).active_circuits@.dom().contains(circuit_id) {
                        old(self).active_circuits@.insert(
                            circuit_id,
                            CircuitInfo {
                                primary_relay: relay,
                                status: CircuitStatus::Recovering,
                                ..old(self).active_circuits@[circuit_id]
                            },
                        )
                    } else {
                        old(self).active_circuits@
                    })
                },
            },
    {
        match selection {
            None => Err(FailoverError::NoHealthyRelays),
            Some(relay) => {
                match self.active_circuits.remove(&circuit_id) {
                    Some(mut c) => {
                        c.primary_relay = relay.clone();
                        c.status = CircuitStatus::Recovering;
                        self.active_circuits.insert(circuit_id, c);
                        assert(self.active_circuits@ =~= old(self).active_circuits@.insert(
                            circuit_id,
                            c,
                        ));
                    },
                    None => {
                        assert(self.active_circuits@ =~= old(self).active_circuits@);
                    },
                }
                let event = FailoverEvent::FailoverStarted {
                    circuit_id,
                    old_relay: failed_relay_id.to_owned(),
                    new_relay: relay.id.clone(),
                };
                Ok((relay, event))
            },
        }
    }

    /// Whether a circuit's backup can take over from its primary relay.
    pub open spec fn has_other_backup(c: CircuitInfo, failed_relay_id: Seq<char>) -> bool {
        c.backup_relay is Some && c.backup_relay->Some_0.id@ != failed_relay_id
    }

    /// The circuit after its failover.
    pub open spec fn moved(
        self,
        c: CircuitInfo,
        failed_relay_id: Seq<char>,
        selection: Option<RelayInfo>,
    ) -> CircuitInfo {
        if Self::has_other_backup(c, failed_relay_id) {
            CircuitInfo {
                primary_relay: c.backup_relay->Some_0,
                backup_relay: self.next_backup(),
                status: CircuitStatus::Recovering,
                ..c
            }
        } else {
            match selection {
                Some(relay) => CircuitInfo {
                    primary_relay: relay,
                    backup_relay: None,
                    status: CircuitStatus::Recovering,
                    ..c
                },
                None => CircuitInfo { backup_relay: None, ..c },
            }
        }
    }

    /// The event of a failover to a relay that the selector found.
    pub open spec fn started(
        circuit_id: u32,
        c: CircuitInfo,
        failed_relay_id: Seq<char>,
        selection: Option<RelayInfo>,
    ) -> Seq<EventView> {
        if Self::has_other_backup(c, failed_relay_id) || selection is None {
            Seq::empty()
        } else {
            seq![
                EventView::FailoverStarted {
                    circuit_id,
                    old_relay: failed_relay_id,
                    new_relay: selection->Some_0.id@,
                },
            ]
        }
    }

    /// The failover of a circuit, where the selector would answer `selection`.
    /// Returns the relay in place of the failed one, and whether the backup
    /// pool is to be refilled.
    pub fn perform_failover(
        &mut self,
        circuit_id: u32,
        failed_relay_id: &str,
        selection: Option<RelayInfo>,
        events: &mut Vec<FailoverEvent>,
    ) -> (r: Result<(RelayInfo, bool), FailoverError>)
        requires
            old(self).wf(),
        ensures
            final(self).wf(),
            final(self).same_settings(*old(self)),
            final(self).failed_relays == old(self).failed_relays,
            if !old(self).active_circuits@.dom().contains(circuit_id) {
                &&& r == Err::<(RelayInfo, bool), FailoverError>(
                    FailoverError::CircuitNotFound(circuit_id),
                )
                &&& final(self).active_circuits@ == old(self).active_circuits@
                &&& final(self).backup_pool == old(self).backup_pool
                &&& final(events)@ == old(events)@
            } else {
                let c = old(self).active_circuits@[circuit_id];
                let by_backup = Self::has_other_backup(c, failed_relay_id@);
                &&& r == (match replacement_for(c, failed_relay_id@, selection) {
                    Some(relay) => Ok::<(RelayInfo, bool), FailoverError>(
                        (relay, by_backup && old(self).runs_low()),
                    ),
                    None => Err(FailoverError::NoHealthyRelays),
                })
                &&& final(self).active_circuits@ == old(self).active_circuits@.insert(
                    circuit_id,
                    old(self).moved(c, failed_relay_id@, selection),
                )
                &&& final(self).backup_pool@ == (if by_backup {
                    old(self).pool_after_pop()
                } else {
                    old(self).backup_pool@
                })
                &&& told(final(events)@) == told(old(events)@) + Self::started(
                    circuit_id,
                    c,
                    failed_relay_id@,
                    selection,
                )
            },
    {
        match self.begin_failover(circuit_id, failed_relay_id) {
            Err(e) => Err(e),
            Ok(FailoverStep::UseBackup { relay, refill }) => {
                assert(told(old(events)@) + Seq::<EventView>::empty() =~= told(old(events)@));
                Ok((relay, refill))
            },
            Ok(FailoverStep::AskSelector) => {
                let ghost c = old(self).active_circuits@[circuit_id];
                match self.finish_failover(circuit_id, failed_relay_id, selection) {
                    Err(e) => {
                        assert(self.active_circuits@ =~= old(self).active_circuits@.insert(
                            circuit_id,
                            old(self).moved(c, failed_relay_id@, selection),
                        ));
                        assert(told(old(events)@) + Seq::<EventView>::empty() =~= told(
                            old(events)@,
                        ));
                        Err(e)
                    },
                    Ok((relay, event)) => {
                        proof {
                            lemma_told_push(events@, event);
                            assert(told(events@).push(event@) =~= told(events@) + seq![event@]);
                        }
                        events.push(event);
                        assert(self.active_circuits@ =~= old(self).active_circuits@.insert(
                            circuit_id,
                            old(self).moved(c, failed_relay_id@, selection),
                        ));
                        Ok((relay, false))
                    },
                }
            },
        }
    }

    /// The events of a failure of a circuit, in order.
    pub open spec fn failure_events(
        self,
        circuit_id: u32,
        reason: FailureType,
        selection: Option<RelayInfo>,
        now: Instant,
    ) -> Seq<EventView> {
        let c = self.active_circuits@[circuit_id];
        let relay_id = c.primary_relay.id@;
        let record = after_failure(self.failures_of(relay_id), relay_id, reason, now);
        let unhealthy = if self.too_many(record.consecutive_failures) {
            seq![EventView::RelayUnhealthy { relay_id }]
        } else {
            Seq::empty()
        };
        let ended = match replacement_for(c, relay_id, selection) {
            Some(relay) => EventView::FailoverCompleted { circuit_id, new_relay: relay.id@ },
            None => EventView::FailoverFailed {
                circuit_id,
                error: "No healthy relays available"@,
            },
        };
        (unhealthy.push(EventView::CircuitFailed { circuit_id, relay_id, reason }) + Self::started(
            circuit_id,
            c,
            relay_id,
            selection,
        )).push(ended)
    }

    /// What a report of a failure does, where the selector would answer
    /// `selection`: `queued` are the events before it and `sent` those after.
    pub open spec fn reports(
        before: FailoverManager,
        after: FailoverManager,
        circuit_id: u32,
        failure_type: FailureType,
        selection: Option<RelayInfo>,
        now: Instant,
        r: Result<FailoverResult, FailoverError>,
        queued: Seq<FailoverEvent>,
        sent: Seq<FailoverEvent>,
    ) -> bool {
        &&& after.same_settings(before)
        &&& if !before.active_circuits@.dom().contains(circuit_id) {
            &&& r == Err::<FailoverResult, FailoverError>(
                FailoverError::CircuitNotFound(circuit_id),
            )
            &&& after.active_circuits@ == before.active_circuits@
            &&& after.failed_relays == before.failed_relays
            &&& after.backup_pool == before.backup_pool
            &&& sent == queued
        } else {
            let c = before.active_circuits@[circuit_id];
            let relay = c.primary_relay.id@;
            &&& after.failed_relays@.dom() == before.failed_relays@.dom().insert(
                relay,
            )
            &&& after.failed_relays@[relay]@ == after_failure(
                before.failures_of(relay),
                relay,
                failure_type,
                now,
            )
            &&& after.failed_relays@.remove(relay) == before.failed_relays@.remove(
                relay,
            )
            &&& r == (match replacement_for(c, relay, selection) {
                Some(new_relay) => Ok::<FailoverResult, FailoverError>(
                    FailoverResult::Success { new_relay },
                ),
                None => Err(FailoverError::NoHealthyRelays),
            })
            &&& after.active_circuits@ == before.active_circuits@.insert(
                circuit_id,
                before.moved(
                    CircuitInfo { status: CircuitStatus::Failed, ..c },
                    relay,
                    selection,
                ),
            )
            &&& after.backup_pool@ == (if Self::has_other_backup(c, relay) {
                before.pool_after_pop()
            } else {
                before.backup_pool@
            })
            &&& told(sent) == told(queued) + before.failure_events(
                circuit_id,
                failure_type,
                selection,
                now,
            )
        }
    }

    /// Report a circuit failure, where the selector would answer `selection`:
    /// the circuit goes over to another relay, or fails for want of one.
    pub fn report_failure(
        &mut self,
        circuit_id: u32,
        failure_type: FailureType,
        selection: Option<RelayInfo>,
        now: Instant,
        events: &mut Vec<FailoverEvent>,
    ) -> (r: Result<FailoverResult, FailoverError>)
        requires
            old(self).wf(),
            old(self).active_circuits@.dom().contains(circuit_id) ==> old(self).can_count_failure(
                old(self).active_circuits@[circuit_id].primary_relay.id@,
            ),
        ensures
            final(self).wf(),
            Self::reports(
                *old(self),
                *final(self),
                circuit_id,
                failure_type,
                selection,
                now,
                r,
                old(events)@,
                final(events)@,
            ),
    {
        let report = match self.begin_failure(circuit_id, failure_type, now) {
            Err(e) => {
                return Err(e);
            },
            Ok(report) => report,
        };
        let ghost c = old(self).active_circuits@[circuit_id];
        let ghost relay = c.primary_relay.id@;
        let ghost failed = CircuitInfo { status: CircuitStatus::Failed, ..c };
        let ghost part = if report.unhealthy {
            seq![EventView::RelayUnhealthy { relay_id: relay }]
        } else {
            Seq::empty()
        };
        if report.unhealthy {
            let event = FailoverEvent::RelayUnhealthy { relay_id: report.relay_id.clone() };
            proof {
                lemma_told_push(events@, event);
            }
            events.push(event);
        }
        assert(told(events@) =~= told(old(events)@) + part);
        let event = FailoverEvent::CircuitFailed {
            circuit_id,
            relay_id: report.relay_id.clone(),
            reason: failure_type,
        };
        proof {
            lemma_told_push(events@, event);
        }
        events.push(event);
        let ghost part = part.push(event@);
        assert(told(events@) =~= told(old(events)@) + part);
        let ghost part = part + Self::started(circuit_id, failed, relay, selection);
        match self.perform_failover(circuit_id, report.relay_id.as_str(), selection, events) {
            Ok((new_relay, _)) => {
                let event = FailoverEvent::FailoverCompleted {
                    circuit_id,
                    new_relay: new_relay.id.clone(),
                };
                proof {
                    lemma_told_push(events@, event);
                }
                events.push(event);
                proof {
                    assert(told(events@) =~= told(old(events)@) + part.push(event@));
                    assert(self.active_circuits@ =~= old(self).active_circuits@.insert(
                        circuit_id,
                        old(self).moved(failed, relay, selection),
                    ));
                }
                Ok(FailoverResult::Success { new_relay })
            },
            Err(e) => {
                let event = FailoverEvent::FailoverFailed { circuit_id, error: e.to_string() };
                proof {
                    lemma_told_push(events@, event);
                }
                events.push(event);
                proof {
                    assert(told(events@) =~= told(old(events)@) + part.push(event@));
                    assert(self.active_circuits@ =~= old(self).active_circuits@.insert(
                        circuit_id,
                        old(self).moved(failed, relay, selection),
                    ));
                }
                Err(e)
            },
        }
    }

    /// Report circuit activity (heartbeat)
    pub fn report_activity(&mut self, circuit_id: u32, bytes: u64, now: Instant) -> (r: Result<
        (),
        FailoverError,
    >)
        requires
            old(self).wf(),
            old(self).active_circuits@.dom().contains(circuit_id) ==> old(
                self,
            ).active_circuits@[circuit_id].bytes_transferred + bytes <= u64::MAX,
        ensures
            final(self).wf(),
            r is Ok,
            final(self).same_settings(*old(self)),
            final(self).failed_relays == old(self).failed_relays,
            final(self).backup_pool == old(self).backup_pool,
            final(self).active_circuits@ == old(self).with_activity(circuit_id, bytes, now),
    {
        match self.active_circuits.remove(&circuit_id) {
            Some(mut c) => {
                c.last_activity = now;
                c.bytes_transferred = c.bytes_transferred + bytes;
                if c.status == CircuitStatus::Degraded {
                    c.status = CircuitStatus::Active;
                }
                self.active_circuits.insert(circuit_id, c);
                assert(self.active_circuits@ =~= old(self).active_circuits@.insert(circuit_id, c));
            },
            None => {
                assert(self.active_circuits@ =~= old(self).active_circuits@);
            },
        }
        Ok(())
    }

    /// Close a circuit
    pub fn close_circuit(&mut self, circuit_id: u32) -> (r: Result<(), FailoverError>)
        requires
            old(self).wf(),
        ensures
            final(self).wf(),
            r is Ok,
            final(self).same_settings(*old(self)),
            final(self).failed_relays == old(self).failed_relays,
            final(self).backup_pool == old(self).backup_pool,
            final(self).active_circuits@ == old(self).active_circuits@.remove(circuit_id),
    {
        self.active_circuits.remove(&circuit_id);
        Ok(())
    }

    /// Get circuit information
    pub fn get_circuit_info(&self, circuit_id: u32) -> (r: Option<CircuitInfo>)
        ensures
            r == (if self.active_circuits@.dom().contains(circuit_id) {
                Some(self.active_circuits@[circuit_id])
            } else {
                None::<CircuitInfo>
            }),
    {
        match self.active_circuits.get(&circuit_id) {
            Some(c) => Some(c.clone()),
            None => None,
        }
    }

    /// Get active circuit count
    pub fn active_circuit_count(&self) -> (r: usize)
        ensures
            r == self.active_circuits@.len(),
    {
        self.active_circuits.len()
    }

    /// Get failover statistics
    pub fn get_statistics(&self) -> (r: FailoverStatistics)
        requires
            self.wf(),
        ensures
            r.total_circuits == self.active_circuits@.len(),
            r.active_circuits == count(
                self.active_circuits@.dom(),
                |id: u32|
                    self.active_circuits@[id].status == CircuitStatus::Active
                        || self.active_circuits@[id].status == CircuitStatus::Degraded,
            ),
            r.failed_circuits == count(
                self.active_circuits@.dom(),
                |id: u32| self.active_circuits@[id].status == CircuitStatus::Failed,
            ),
            r.recovering_circuits == count(
                self.active_circuits@.dom(),
                |id: u32| self.active_circuits@[id].status == CircuitStatus::Recovering,
            ),
            r.failed_relays == self.failed_relays@.len(),
            r.backup_pool_size == self.backup_pool@.len(),
    {
        let ks = maps::keys_u32(&self.active_circuits);
        let ghost is_a = |id: u32|
            self.active_circuits@[id].status == CircuitStatus::Active
                || self.active_circuits@[id].status == CircuitStatus::Degraded;
        let ghost is_f = |id: u32| self.active_circuits@[id].status == CircuitStatus::Failed;
        let ghost is_r = |id: u32| self.active_circuits@[id].status == CircuitStatus::Recovering;
        let mut active: usize = 0;
        let mut failed: usize = 0;
        let mut recovering: usize = 0;
        let mut i: usize = 0;
        proof {
            maps::lemma_seen_ends(ks@);
            maps::lemma_count_empty(is_a);
            maps::lemma_count_empty(is_f);
            maps::lemma_count_empty(is_r);
        }
        while i < ks.len()
            invariant
                i <= ks@.len(),
                ks@.no_duplicates(),
                ks@.to_set() == self.active_circuits@.dom(),
                is_a == (|id: u32|
                    self.active_circuits@[id].status == CircuitStatus::Active
                        || self.active_circuits@[id].status == CircuitStatus::Degraded),
                is_f == (|id: u32| self.active_circuits@[id].status == CircuitStatus::Failed),
                is_r == (|id: u32| self.active_circuits@[id].status == CircuitStatus::Recovering),
                active == count(seen(ks@, i as int), is_a),
                failed == count(seen(ks@, i as int), is_f),
                recovering == count(seen(ks@, i as int), is_r),
                active <= i,
                failed <= i,
                recovering <= i,
            decreases ks@.len() - i,
        {
            let id: u32 = ks[i];
            proof {
                maps::lemma_seen_next(ks@, i as int);
                let s = seen(ks@, i as int);
                maps::lemma_count_insert(s, id, is_a);
                maps::lemma_count_insert(s, id, is_f);
                maps::lemma_count_insert(s, id, is_r);
            }
            match self.active_circuits.get(&id) {
                Some(c) => match c.status {
                    CircuitStatus::Active | CircuitStatus::Degraded => {
                        active = active + 1;
                    },
                    CircuitStatus::Failed => {
                        failed = failed + 1;
                    },
                    CircuitStatus::Recovering => {
                        recovering = recovering + 1;
                    },
                    CircuitStatus::Closed => {},
                },
                None => {},
            }
            i = i + 1;
        }
        proof {
            maps::lemma_seen_ends(ks@);
        }
        FailoverStatistics {
            total_circuits: self.active_circuits.len(),
            active_circuits: active,
            failed_circuits: failed,
            recovering_circuits: recovering,
            failed_relays: self.failed_relays.len(),
            backup_pool_size: self.backup_pool.len(),
        }
    }

    /// How many relays the selector is to be asked for
    pub fn refill_needed(&self) -> (r: usize)
        ensures
            r == (if self.backup_pool@.len() < self.min_backup_pool_size {
                self.min_backup_pool_size - self.backup_pool@.len()
            } else {
                0
            }),
            self.backup_pool@.len() + r >= self.min_backup_pool_size,
            r > 0 ==> self.backup_pool@.len() + r == self.min_backup_pool_size,
    {
        if self.backup_pool.len() < self.min_backup_pool_size {
            self.min_backup_pool_size - self.backup_pool.len()
        } else {
            0
        }
    }

    /// Whether nothing is known of a failure of a relay.
    pub open spec fn unfailed(self) -> spec_fn(RelayInfo) -> bool {
        |relay: RelayInfo| !self.failed_relays@.dom().contains(relay.id@)
    }

    /// Force refill of backup pool with the relays that the selector found, but
    /// for those that have failed already. Returns the size of the pool and the
    /// event to send, if there is one.
    pub fn refill_backup_pool(&mut self, found: Vec<RelayInfo>) -> (r: (
        usize,
        Option<FailoverEvent>,
    ))
        requires
            old(self).wf(),
        ensures
            final(self).wf(),
            final(self).same_settings(*old(self)),
            final(self).active_circuits == old(self).active_circuits,
            final(self).failed_relays == old(self).failed_relays,
            final(self).backup_pool@ == old(self).backup_pool@ + found@.filter(
                old(self).unfailed(),
            ),
            r.0 == final(self).backup_pool@.len(),
            r.1 == (if found@.filter(old(self).unfailed()).len() > 0 {
                Some(
                    FailoverEvent::BackupPoolRefilled {
                        count: found@.filter(old(self).unfailed()).len() as usize,
                    },
                )
            } else {
                None::<FailoverEvent>
            }),
    {
        let mut number: usize = 0;
        let total: usize = found.len();
        let ghost all = found@;
        let ghost fits = old(self).unfailed();
        proof {
            reveal(Seq::filter);
            assert(all.take(0).filter(fits) =~= Seq::<RelayInfo>::empty());
            assert(old(self).backup_pool@ + all.take(0).filter(fits) =~= old(self).backup_pool@);
        }
        for relay in it: found
            invariant
                it.seq() == all,
                all.len() == total,
                fits == old(self).unfailed(),
                self.wf(),
                self.same_settings(*old(self)),
                self.active_circuits == old(self).active_circuits,
                self.failed_relays == old(self).failed_relays,
                number == all.take(it.index()).filter(fits).len(),
                number <= it.index(),
                self.backup_pool@ == old(self).backup_pool@ + all.take(it.index()).filter(fits),
        {
            proof {
                reveal(Seq::filter);
                assert(all.take(it.index() + 1).drop_last() =~= all.take(it.index()));
                assert(all.take(it.index() + 1).last() == relay);
            }
            if !self.failed_relays.contains(relay.id.as_str()) {
                self.backup_pool.push_back(relay);
                number = number + 1;
            }
            assert(self.backup_pool@ =~= old(self).backup_pool@ + all.take(it.index() + 1).filter(
                fits,
            ));
        }
        assert(all.take(all.len() as int) =~= all);
        let size: usize = self.backup_pool.len();
        if number > 0 {
            (size, Some(FailoverEvent::BackupPoolRefilled { count: number }))
        } else {
            (size, None)
        }
    }

    /// Marks active circuits without activity for more than five minutes as
    /// degraded
    pub fn check_stale_circuits(&mut self, now: Instant)
        requires
            old(self).wf(),
        ensures
            final(self).wf(),
            final(self).same_settings(*old(self)),
            final(self).failed_relays == old(self).failed_relays,
            final(self).backup_pool == old(self).backup_pool,
            final(self).active_circuits@.dom() == old(self).active_circuits@.dom(),
            forall|id: u32| #[trigger]
                final(self).active_circuits@.dom().contains(id)
                    ==> final(self).active_circuits@[id] == aged(
                    old(self).active_circuits@[id],
                    now,
                ),
    {
        let ks = maps::keys_u32(&self.active_circuits);
        let ghost dom = self.active_circuits@.dom();
        let mut i: usize = 0;
        proof {
            maps::lemma_seen_ends(ks@);
        }
        while i < ks.len()
            invariant
                self.wf(),
                i <= ks@.len(),
                ks@.no_duplicates(),
                ks@.to_set() == dom,
                dom == old(self).active_circuits@.dom(),
                self.active_circuits@.dom() == dom,
                self.same_settings(*old(self)),
                self.failed_relays == old(self).failed_relays,
                self.backup_pool == old(self).backup_pool,
                forall|id: u32|
                    dom.contains(id) ==> #[trigger] self.active_circuits@[id] == (if seen(
                        ks@,
                        i as int,
                    ).contains(id) {
                        aged(old(self).active_circuits@[id], now)
                    } else {
                        old(self).active_circuits@[id]
                    }),
            decreases ks@.len() - i,
        {
            let id: u32 = ks[i];
            proof {
                maps::lemma_seen_next(ks@, i as int);
                assert(dom.contains(id));
            }
            match self.active_circuits.remove(&id) {
                Some(mut c) => {
                    if c.status == CircuitStatus::Active && now.duration_since(
                        c.last_activity,
                    ).nanos > 300_000_000_000 {
                        c.status = CircuitStatus::Degraded;
                    }
                    self.active_circuits.insert(id, c);
                },
                None => {},
            }
            assert(self.active_circuits@.dom() =~= dom);
            i = i + 1;
        }
        proof {
            maps::lemma_seen_ends(ks@);
        }
    }

    /// Whether the relay recovers by itself: it has failed, but not within the
    /// cooldown, and recovery is automatic.
    pub open spec fn recoverable(self, relay_id: Seq<char>, now: Instant) -> bool {
        self.auto_recovery && self.failed_relays@.dom().contains(relay_id) && elapsed(
            now,
            self.failed_relays@[relay_id].last_failure,
        ) > self.failure_cooldown.nanos
    }

    /// Forgives relays that have not failed within the cooldown, where recovery
    /// is automatic. Returns them, each once: the registry is to mark them as
    /// healthy, and the event of their recovery to be sent.
    pub fn check_recoverable_relays(&mut self, now: Instant) -> (r: Vec<String>)
        requires
            old(self).wf(),
        ensures
            final(self).wf(),
            final(self).same_settings(*old(self)),
            final(self).active_circuits == old(self).active_circuits,
            final(self).backup_pool == old(self).backup_pool,
            final(self).failed_relays@.dom() == old(self).failed_relays@.dom(),
            forall|name: Seq<char>| #[trigger]
                final(self).failed_relays@.dom().contains(name)
                    ==> final(self).failed_relays@[name] == (if old(self).recoverable(name, now) {
                    FailureInfo { consecutive_failures: 0, ..old(self).failed_relays@[name] }
                } else {
                    old(self).failed_relays@[name]
                }),
            forall|i: int| 0 <= i < r@.len() ==> old(self).recoverable((#[trigger] r@[i])@, now),
            forall|i: int, j: int|
                0 <= i < j < r@.len() ==> (#[trigger] r@[i])@ != (#[trigger] r@[j])@,
            forall|name: Seq<char>| #[trigger]
                old(self).recoverable(name, now) ==> exists|i: int|
                    0 <= i < r@.len() && (#[trigger] r@[i])@ == name,
    {
        let mut r: Vec<String> = Vec::new();
        let number: usize = self.failed_relays.len();
        let ghost all = self.failed_relays@;
        let mut i: usize = 0;
        proof {
            self.failed_relays.lemma_places();
        }
        while i < number
            invariant
                self.wf(),
                self == old(self),
                all == self.failed_relays@,
                number == all.len(),
                i <= number,
                forall|k: int, j: int|
                    0 <= k < j < all.len() ==> #[trigger] self.failed_relays.name_at(k)
                        != #[trigger] self.failed_relays.name_at(j),
                forall|k: int|
                    0 <= k < r@.len() ==> old(self).recoverable((#[trigger] r@[k])@, now) && exists|
                        j: int,
                    |
                        0 <= j < i && #[trigger] self.failed_relays.name_at(j) == r@[k]@,
                forall|k: int, j: int|
                    0 <= k < j < r@.len() ==> (#[trigger] r@[k])@ != (#[trigger] r@[j])@,
                forall|j: int|
                    0 <= j < i && old(self).recoverable(
                        #[trigger] self.failed_relays.name_at(j),
                        now,
                    ) ==> exists|k: int|
                        0 <= k < r@.len() && (#[trigger] r@[k])@ == self.failed_relays.name_at(j),
            decreases number - i,
        {
            let (name, info) = self.failed_relays.entry(i);
            if self.auto_recovery && now.duration_since(info.last_failure).nanos
                > self.failure_cooldown.nanos {
                let ghost before = r@;
                r.push(name.to_owned());
                proof {
                    let last = before.len() as int;
                    assert(r@[last]@ == self.failed_relays.name_at(i as int));
                    assert forall|k: int| 0 <= k < r@.len() implies old(self).recoverable(
                        (#[trigger] r@[k])@,
                        now,
                    ) && exists|j: int|
                        0 <= j < i + 1 && #[trigger] self.failed_relays.name_at(j) == r@[k]@ by {
                        if k < last {
                            assert(r@[k] == before[k]);
                            let j = choose|j: int|
                                0 <= j < i && #[trigger] self.failed_relays.name_at(j)
                                    == before[k]@;
                            assert(self.failed_relays.name_at(j) == r@[k]@);
                        }
                    }
                    assert forall|k: int, j: int| 0 <= k < j < r@.len() implies (#[trigger] r@[k])@
                        != (#[trigger] r@[j])@ by {
                        assert(r@[k] == before[k]);
                        if j == last {
                            let p = choose|p: int|
                                0 <= p < i && #[trigger] self.failed_relays.name_at(p)
                                    == before[k]@;
                            assert(self.failed_relays.name_at(p) != self.failed_relays.name_at(
                                i as int,
                            ));
                        } else {
                            assert(r@[j] == before[j]);
                        }
                    }
                    assert forall|j: int|
                        0 <= j < i + 1 && old(self).recoverable(
                            #[trigger] self.failed_relays.name_at(j),
                            now,
                        ) implies exists|k: int|
                        0 <= k < r@.len() && (#[trigger] r@[k])@ == self.failed_relays.name_at(
                            j,
                        ) by {
                        if j < i {
                            let k = choose|k: int|
                                0 <= k < before.len() && (#[trigger] before[k])@
                                    == self.failed_relays.name_at(j);
                            assert(r@[k]@ == self.failed_relays.name_at(j));
                        }
                    }
                }
            }
            i = i + 1;
        }
        proof {
            self.failed_relays.lemma_places();
            assert forall|name: Seq<char>| #[trigger] old(self).recoverable(name, now) implies exists|
                k: int,
            |
                0 <= k < r@.len() && (#[trigger] r@[k])@ == name by {
                assert(all.dom().contains(name));
                let j = choose|j: int|
                    0 <= j < all.len() && #[trigger] self.failed_relays.name_at(j) == name;
                assert(old(self).recoverable(self.failed_relays.name_at(j), now));
            }
        }
        let mut k: usize = 0;
        while k < r.len()
            invariant
                self.wf(),
                k <= r@.len(),
                self.same_settings(*old(self)),
                self.active_circuits == old(self).active_circuits,
                self.backup_pool == old(self).backup_pool,
                self.failed_relays@.dom() == old(self).failed_relays@.dom(),
                forall|j: int| 0 <= j < r@.len() ==> old(self).recoverable((#[trigger] r@[j])@, now),
                forall|a: int, b: int|
                    0 <= a < b < r@.len() ==> (#[trigger] r@[a])@ != (#[trigger] r@[b])@,
                forall|name: Seq<char>| #[trigger]
                    self.failed_relays@.dom().contains(name) ==> self.failed_relays@[name] == (
                    if crate::names::text_set(r@.take(k as int)).contains(name) {
                        FailureInfo { consecutive_failures: 0, ..old(self).failed_relays@[name] }
                    } else {
                        old(self).failed_relays@[name]
                    }),
            decreases r@.len() - k,
        {
            let ghost before = self.failed_relays@;
            let ghost name = r@[k as int]@;
            match self.failed_relays.remove(r[k].as_str()) {
                Some(mut info) => {
                    info.consecutive_failures = 0;
                    self.failed_relays.insert(r[k].as_str(), info);
                },
                None => {},
            }
            proof {
                assert(old(self).recoverable(r@[k as int]@, now));
                assert(self.failed_relays@.dom() =~= before.dom());
                lemma_text_set_next(r@, k as int);
                if crate::names::text_set(r@.take(k as int)).contains(name) {
                    let j = choose|j: int|
                        0 <= j < k && (#[trigger] r@.take(k as int)[j])@ == name;
                    assert(r@[j]@ != r@[k as int]@);
                }
            }
            k = k + 1;
        }
        proof {
            assert(r@.take(k as int) =~= r@);
            assert forall|name: Seq<char>| #[trigger]
                crate::names::text_set(r@).contains(name) <==> old(self).recoverable(name, now) by {
                if crate::names::text_set(r@).contains(name) {
                    let j = choose|j: int| 0 <= j < r@.len() && (#[trigger] r@[j])@ == name;
                    assert(old(self).recoverable(r@[j]@, now));
                }
            }
        }
        r
    }
}

proof fn lemma_text_set_next(names: Seq<String>, k: int)
    requires
        0 <= k < names.len(),
    ensures
        forall|t: Seq<char>| #[trigger]
            crate::names::text_set(names.take(k + 1)).contains(t) <==> crate::names::text_set(
                names.take(k),
            ).contains(t) || t == names[k]@,
{
    let more = names.take(k + 1);
    let less = names.take(k);
    assert forall|t: Seq<char>| #[trigger]
        crate::names::text_set(more).contains(t) <==> crate::names::text_set(less).contains(t) || t
            == names[k]@ by {
        if crate::names::text_set(less).contains(t) {
            let j = choose|j: int| 0 <= j < less.len() && (#[trigger] less[j])@ == t;
            assert(more[j]@ == t);
        }
        assert(more[k] == names[k]);
        if crate::names::text_set(more).contains(t) {
            let j = choose|j: int| 0 <= j < more.len() && (#[trigger] more[j])@ == t;
            if j < k {
                assert(less[j]@ == t);
            }
        }
    }
}

/// A circuit after the check for stale ones.
pub open spec fn aged(c: CircuitInfo, now: Instant) -> CircuitInfo {
    if c.status == CircuitStatus::Active && elapsed(now, c.last_activity) > 300_000_000_000 {
        CircuitInfo { status: CircuitStatus::Degraded, ..c }
    } else {
        c
    }
}

/// The relay that takes over from a failed one: the circuit's backup, unless
/// that is the failed relay itself, else what the selector answers.
pub open spec fn replacement_for(
    c: CircuitInfo,
    failed_relay_id: Seq<char>,
    selection: Option<RelayInfo>,
) -> Option<RelayInfo> {
    if FailoverManager::has_other_backup(c, failed_relay_id) {
        c.backup_relay
    } else {
        selection
    }
}

/// A circuit never fails over to the relay that failed, as long as the selector
/// answers with another.
pub proof fn law_failover_leaves_the_failed_relay(
    c: CircuitInfo,
    failed_relay_id: Seq<char>,
    selection: Option<RelayInfo>,
)
    requires
        selection matches Some(relay) ==> relay.id@ != failed_relay_id,
    ensures
        replacement_for(c, failed_relay_id, selection) matches Some(relay) ==> relay.id@
            != failed_relay_id,
{
}

/// A failover succeeds whenever there is a backup other than the failed relay,
/// whatever the selector answers.
pub proof fn law_backup_suffices(
    c: CircuitInfo,
    failed_relay_id: Seq<char>,
    selection: Option<RelayInfo>,
)
    requires
        c.backup_relay matches Some(relay) && relay.id@ != failed_relay_id,
    ensures
        replacement_for(c, failed_relay_id, selection) == c.backup_relay,
{
}

/// A failure counts once, in all and in its row, and its type comes last among those
/// that are kept, of which there are ten at most: the latest.
pub proof fn law_a_failure_is_recorded(
    before: Option<FailureView>,
    relay_id: Seq<char>,
    ft: FailureType,
    now: Instant,
)
    requires
        before matches Some(v) ==> v.failure_count < u32::MAX && v.consecutive_failures < u32::MAX
            && v.failure_types.len() <= 10,
    ensures
        ({
            let after = after_failure(before, relay_id, ft, now);
            let kept = after.failure_types;
            &&& after.last_failure == now
            &&& kept.last() == ft
            &&& before is None ==> after.relay_id == relay_id && after.failure_count == 1
                && after.consecutive_failures == 1 && kept.len() == 1
            &&& before matches Some(v) ==> {
                &&& after.relay_id == v.relay_id
                &&& after.failure_count == v.failure_count + 1
                &&& after.consecutive_failures == v.consecutive_failures + 1
                &&& kept.len() == if v.failure_types.len() < 10 {
                    v.failure_types.len() + 1
                } else {
                    10
                }
                &&& forall|i: int|
                    1 <= i < kept.len() ==> #[trigger] kept[kept.len() - 1 - i]
                        == v.failure_types[v.failure_types.len() - i]
            }
        }),
{
}

/// The selector hears of a timeout, a protocol error, a failed authentication and a
/// rejection under their own names, and of everything else as a failed connection.
pub proof fn law_what_the_selector_hears(ft: FailureType)
    ensures
        ft == FailureType::Timeout <==> selector_failure(ft) == SelectorFailure::Timeout,
        ft == FailureType::ProtocolError <==> selector_failure(ft)
            == SelectorFailure::ProtocolError,
        ft == FailureType::AuthenticationFailed <==> selector_failure(ft)
            == SelectorFailure::AuthenticationFailed,
        ft == FailureType::Rejected <==> selector_failure(ft) == SelectorFailure::RelayRejected,
{
}

/// By default three failures in a row are too many and two are not, a relay recovers
/// by itself when more than five minutes have passed since its last failure, and
/// backups run low when fewer than two would be left.
pub proof fn law_default_limits(
    manager: FailoverManager,
    consecutive_failures: u32,
    relay_id: Seq<char>,
    now: Instant,
)
    requires
        manager.configured(default_failover_config()),
        manager.failed_relays@.dom().contains(relay_id),
    ensures
        manager.too_many(consecutive_failures) <==> consecutive_failures >= 3,
        manager.recoverable(relay_id, now) <==> now.nanos
            - manager.failed_relays@[relay_id].last_failure.nanos > secs(300),
        manager.runs_low() <==> manager.backup_pool@.len() == 1 || manager.backup_pool@.len() == 2,
{
}

/// A relay that never failed does not recover, nor does one where recovery is not
/// automatic; and one that can recover still can later.
pub proof fn law_when_relays_recover(
    manager: FailoverManager,
    relay_id: Seq<char>,
    now: Instant,
    later: Instant,
)
    requires
        now.nanos <= later.nanos,
    ensures
        manager.failures_of(relay_id) is None ==> !manager.recoverable(relay_id, now),
        !manager.auto_recovery ==> !manager.recoverable(relay_id, now),
        manager.recoverable(relay_id, now) ==> manager.recoverable(relay_id, later),
{
}

/// A circuit is degraded by the check exactly if it is active and was silent for more
/// than five minutes; nothing else of it changes, and a second check at the same time
/// changes nothing more.
pub proof fn law_silent_circuits_are_degraded(c: CircuitInfo, now: Instant)
    ensures
        ({
            let after = aged(c, now);
            &&& after.status != c.status <==> c.status == CircuitStatus::Active && now.nanos
                - c.last_activity.nanos > secs(300)
            &&& after.status != c.status ==> after.status == CircuitStatus::Degraded
            &&& (CircuitInfo { status: c.status, ..after }) == c
            &&& aged(after, now) == after
        }),
{
}

/// Activity is added up, counts as the latest, brings a degraded circuit back and
/// leaves every other circuit alone; and a circuit with activity just now is not
/// degraded by the check.
pub proof fn law_activity_keeps_circuits_alive(
    manager: FailoverManager,
    circuit_id: u32,
    bytes: u64,
    now: Instant,
    other: u32,
)
    requires
        manager.active_circuits@.dom().contains(circuit_id),
        manager.active_circuits@[circuit_id].bytes_transferred + bytes <= u64::MAX,
        other != circuit_id,
    ensures
        ({
            let c = manager.active_circuits@[circuit_id];
            let after = manager.with_activity(circuit_id, bytes, now);
            &&& after.dom() == manager.active_circuits@.dom()
            &&& after[circuit_id].bytes_transferred == c.bytes_transferred + bytes
            &&& after[circuit_id].last_activity == now
            &&& after[circuit_id].status != CircuitStatus::Degraded
            &&& c.status != CircuitStatus::Degraded ==> after[circuit_id].status == c.status
            &&& c.status == CircuitStatus::Degraded ==> after[circuit_id].status
                == CircuitStatus::Active
            &&& after[circuit_id].primary_relay == c.primary_relay
            &&& after[circuit_id].backup_relay == c.backup_relay
            &&& after[other] == manager.active_circuits@[other]
            &&& aged(after[circuit_id], now) == after[circuit_id]
        }),
{
    let after = manager.with_activity(circuit_id, bytes, now);
    assert(after.dom() =~= manager.active_circuits@.dom());
}

/// A failure of a circuit is told in this order: that its relay counts as unhealthy,
/// where it does; that the circuit failed, by its relay and with the reason; that a
/// failover to a selected relay began, where there is one; and last, that it ended
/// at the relay that takes over, or failed because none does.
#[verifier::rlimit(40)]
pub proof fn law_failures_are_told(
    manager: FailoverManager,
    circuit_id: u32,
    reason: FailureType,
    selection: Option<RelayInfo>,
    now: Instant,
)
    requires
        manager.active_circuits@.dom().contains(circuit_id),
    ensures
        ({
            let c = manager.active_circuits@[circuit_id];
            let relay_id = c.primary_relay.id@;
            let told = manager.failure_events(circuit_id, reason, selection, now);
            let record = after_failure(manager.failures_of(relay_id), relay_id, reason, now);
            let failed = EventView::CircuitFailed { circuit_id, relay_id, reason };
            &&& record.consecutive_failures >= manager.max_failures_before_unhealthy ==> told[0]
                == (EventView::RelayUnhealthy { relay_id }) && told[1] == failed
            &&& record.consecutive_failures < manager.max_failures_before_unhealthy ==> told[0]
                == failed
            &&& told.last() == (match replacement_for(c, relay_id, selection) {
                Some(relay) => EventView::FailoverCompleted { circuit_id, new_relay: relay.id@ },
                None => EventView::FailoverFailed {
                    circuit_id,
                    error: "No healthy relays available"@,
                },
            })
            &&& 2 <= told.len() <= 4
        }),
{
}

/// A circuit that is moved goes to the relay that takes over and gets the next backup
/// of the pool where its own was used up; it keeps its number, its age and what it
/// has carried.
pub proof fn law_moved_circuits(
    manager: FailoverManager,
    c: CircuitInfo,
    failed_relay_id: Seq<char>,
    selection: Option<RelayInfo>,
)
    ensures
        ({
            let after = manager.moved(c, failed_relay_id, selection);
            let used = c.backup_relay is Some && c.backup_relay->Some_0.id@ != failed_relay_id;
            &&& after.circuit_id == c.circuit_id && after.created_at == c.created_at
                && after.last_activity == c.last_activity && after.bytes_transferred
                == c.bytes_transferred
            &&& replacement_for(c, failed_relay_id, selection) matches Some(relay)
                ==> after.primary_relay == relay && after.status == CircuitStatus::Recovering
            &&& replacement_for(c, failed_relay_id, selection) is None ==> after.primary_relay
                == c.primary_relay && after.status == c.status
            &&& after.backup_relay == if used && manager.backup_pool@.len() > 0 {
                Some(manager.backup_pool@[0])
            } else {
                None
            }
        }),
{
}

/// Backups are taken from the front of the pool, one at a time, and none is lost.
pub proof fn law_backups_are_taken_in_turn(manager: FailoverManager)
    ensures
        one_backup(manager.next_backup()) + manager.pool_after_pop() == manager.backup_pool@,
        manager.next_backup() is None <==> manager.backup_pool@.len() == 0,
{
    assert(one_backup(manager.next_backup()) + manager.pool_after_pop() =~= manager.backup_pool@);
}

/// A backup as a list.
pub open spec fn one_backup(backup: Option<RelayInfo>) -> Seq<RelayInfo> {
    match backup {
        Some(relay) => seq![relay],
        None => Seq::empty(),
    }
}

/// A circuit that is registered is active from now on, on its relay and with the next
/// backup, and leaves the others alone.
pub proof fn law_registered_circuits(
    manager: FailoverManager,
    circuit_id: u32,
    relay: RelayInfo,
    now: Instant,
    other: u32,
)
    requires
        other != circuit_id,
    ensures
        ({
            let after = manager.with_circuit(circuit_id, relay, now);
            let c = after[circuit_id];
            &&& after.dom() == manager.active_circuits@.dom().insert(circuit_id)
            &&& after[other] == manager.active_circuits@[other]
            &&& c.status == CircuitStatus::Active && c.primary_relay == relay
                && c.bytes_transferred == 0 && c.circuit_id == circuit_id
            &&& c.created_at == now && c.last_activity == now
            &&& aged(c, now) == c
            &&& c.backup_relay == if manager.backup_pool@.len() > 0 {
                Some(manager.backup_pool@[0])
            } else {
                None
            }
        }),
{
}

/// A report of a failure finds the circuit another relay exactly if its own backup or
/// the selector has one; the circuit is on that relay then, the failure of the relay
/// that it was on is recorded, and other circuits and the records of other relays stay
/// as they were. A report on a circuit that is not known changes nothing.
#[verifier::rlimit(40)]
pub proof fn law_what_a_report_does(
    before: FailoverManager,
    after: FailoverManager,
    circuit_id: u32,
    failure_type: FailureType,
    selection: Option<RelayInfo>,
    now: Instant,
    r: Result<FailoverResult, FailoverError>,
    queued: Seq<FailoverEvent>,
    sent: Seq<FailoverEvent>,
    other: u32,
)
    requires
        FailoverManager::reports(
            before,
            after,
            circuit_id,
            failure_type,
            selection,
            now,
            r,
            queued,
            sent,
        ),
        other != circuit_id,
    ensures
        before.active_circuits@.dom().contains(circuit_id) ==> {
            let c = before.active_circuits@[circuit_id];
            let relay = c.primary_relay.id@;
            let spare = c.backup_relay is Some && c.backup_relay->Some_0.id@ != relay;
            &&& r is Ok <==> spare || selection is Some
            &&& r matches Ok(FailoverResult::Success { new_relay }) ==> new_relay
                == after.active_circuits@[circuit_id].primary_relay && new_relay == if spare {
                c.backup_relay->Some_0
            } else {
                selection->Some_0
            }
            &&& r is Ok ==> after.active_circuits@[circuit_id].status == CircuitStatus::Recovering
            &&& r is Err ==> after.active_circuits@[circuit_id].status == CircuitStatus::Failed
            &&& after.failures_of(relay) matches Some(v) && v.last_failure == now
                && v.failure_types.last() == failure_type
            &&& after.active_circuits@.dom() == before.active_circuits@.dom()
            &&& after.active_circuits@[other] == before.active_circuits@[other]
            &&& sent.len() > queued.len()
        },
        !before.active_circuits@.dom().contains(circuit_id) ==> r is Err && after.active_circuits@
            == before.active_circuits@ && after.failed_relays@ == before.failed_relays@ && sent
            == queued,
{
    if before.active_circuits@.dom().contains(circuit_id) {
        assert(after.active_circuits@.dom() =~= before.active_circuits@.dom());
        assert(told(sent).len() == sent.len());
        assert(told(queued).len() == queued.len());
    }
}

/// Of the relays that were found those are taken up that never failed, and no others.
pub proof fn law_failed_relays_are_not_taken_up(
    manager: FailoverManager,
    found: Seq<RelayInfo>,
    relay: RelayInfo,
)
    ensures
        found.filter(manager.unfailed()).contains(relay) <==> found.contains(relay)
            && manager.failures_of(relay.id@) is None,
{
    maps::lemma_filter_members(found, manager.unfailed(), relay);
}

/// The record of a relay's failures after several more.
pub open spec fn after_failures(
    before: Option<FailureView>,
    relay_id: Seq<char>,
    types: Seq<FailureType>,
    now: Instant,
) -> Option<FailureView>
    decreases types.len(),
{
    if types.len() == 0 {
        before
    } else {
        Some(
            after_failure(
                after_failures(before, relay_id, types.drop_last(), now),
                relay_id,
                types.last(),
                now,
            ),
        )
    }
}

/// After as many failures in a row as the manager allows a relay counts as
/// unhealthy, whatever was known of it before.
pub proof fn law_failures_in_a_row_are_too_many(
    manager: FailoverManager,
    before: Option<FailureView>,
    relay_id: Seq<char>,
    types: Seq<FailureType>,
    now: Instant,
)
    requires
        0 < types.len(),
        manager.max_failures_before_unhealthy <= types.len() <= u32::MAX,
        before matches Some(v) ==> v.consecutive_failures + types.len() <= u32::MAX,
    ensures
        after_failures(before, relay_id, types, now) matches Some(v) && manager.too_many(
            v.consecutive_failures,
        ),
{
    lemma_failures_add_up(before, relay_id, types, now);
}

proof fn lemma_failures_add_up(
    before: Option<FailureView>,
    relay_id: Seq<char>,
    types: Seq<FailureType>,
    now: Instant,
)
    requires
        types.len() <= u32::MAX,
        before matches Some(v) ==> v.consecutive_failures + types.len() <= u32::MAX,
    ensures
        types.len() > 0 ==> after_failures(before, relay_id, types, now) is Some,
        after_failures(before, relay_id, types, now) matches Some(v) ==> v.consecutive_failures
            == types.len() + (match before {
            Some(b) => b.consecutive_failures as int,
            None => 0,
        }),
    decreases types.len(),
{
    if types.len() > 0 {
        lemma_failures_add_up(before, relay_id, types.drop_last(), now);
    }
}

/// Failover statistics
#[derive(Debug, Clone, Copy, PartialEq, Eq, Structural)]
pub struct FailoverStatistics {
    /// Total number of tracked circuits
    pub total_circuits: usize,
    /// Number of active circuits
    pub active_circuits: usize,
    /// Number of failed circuits
    pub failed_circuits: usize,
    /// Number of circuits being recovered
    pub recovering_circuits: usize,
    /// Number of failed relays
    pub failed_relays: usize,
    /// Current backup pool size
    pub backup_pool_size: usize,
}

} // verus!
