//! Circuit Pool Module
//!
//! Manages a pool of pre-built ready circuits for immediate use, after Tor's
//! circuit pre-building strategy to reduce connection latency.
//!
//! Building and closing circuits is the business of a [`CircuitBuilder`]. Each
//! operation that needs one exists twice: here as steps, between which the
//! caller does the outside work in its own way ([`CircuitPool::begin_build`]
//! and [`CircuitPool::finish_build`], for one), and in the module `supply` as a
//! whole that calls the builder itself.

use super::health::{CircuitHealthMonitor, MetricsView};
use crate::maps;
use crate::maps::{count, except, seen, total};
use crate::text;
use crate::text::decimal_text;
use crate::time::{elapsed, secs, Duration, Instant};
use std::collections::{HashMap, VecDeque};
use vstd::prelude::*;
use vstd::string::*;

verus! {

/// Unique circuit identifier
pub type CircuitId = u64;

/// Circuit state in the pool
#[derive(Debug, Clone, Copy, PartialEq, Eq, Hash, Structural)]
pub enum PoolCircuitState {
    /// Circuit is being built
    Building,
    /// Circuit is ready for use
    Ready,
    /// Circuit is currently in use
    InUse,
    /// Circuit is being refreshed
    Refreshing,
    /// Circuit is marked for removal
    Retiring,
}

/// Circuit information in the pool
#[derive(Debug, Clone)]
pub struct PoolCircuit {
    /// Circuit ID
    pub id: CircuitId,
    /// Current state
    pub state: PoolCircuitState,
    /// Circuit creation time
    pub created_at: Instant,
    /// Time when circuit became ready
    pub ready_at: Option<Instant>,
    /// Last used time
    pub last_used: Option<Instant>,
    /// Number of times used
    pub use_count: u64,
    /// Total bytes transferred
    pub bytes_transferred: u64,
    /// Circuit path (relay IDs)
    pub path: Vec<String>,
    /// Circuit bandwidth estimate (bytes/sec)
    pub bandwidth_estimate: u64,
    /// Whether this circuit is dirty (has been used)
    pub is_dirty: bool,
}

impl PoolCircuit {
    /// This circuit, used once more from `now` on.
    pub open spec fn used(self, now: Instant) -> PoolCircuit {
        PoolCircuit {
            state: PoolCircuitState::InUse,
            last_used: Some(now),
            use_count: (self.use_count + 1) as u64,
            is_dirty: true,
            ..self
        }
    }

    /// This circuit, ready since `now`.
    pub open spec fn readied(self, now: Instant) -> PoolCircuit {
        PoolCircuit { state: PoolCircuitState::Ready, ready_at: Some(now), ..self }
    }

    /// This circuit, free again where it was in use.
    pub open spec fn freed(self) -> PoolCircuit {
        if self.state == PoolCircuitState::InUse {
            PoolCircuit { state: PoolCircuitState::Ready, ..self }
        } else {
            self
        }
    }

    /// Whether this is a new circuit with nothing done to it but for the given
    /// state and time of readiness.
    pub open spec fn is_new(
        self,
        id: CircuitId,
        path: Seq<String>,
        state: PoolCircuitState,
        created_at: Instant,
        ready_at: Option<Instant>,
    ) -> bool {
        &&& self.id == id
        &&& self.state == state
        &&& self.created_at == created_at
        &&& self.ready_at == ready_at
        &&& self.last_used is None
        &&& self.use_count == 0
        &&& self.bytes_transferred == 0
        &&& self.path@ == path
        &&& self.bandwidth_estimate == 0
        &&& !self.is_dirty
    }

    /// Create a new pool circuit
    pub fn new(id: CircuitId, path: Vec<String>, now: Instant) -> (r: PoolCircuit)
        ensures
            r.is_new(id, path@, PoolCircuitState::Building, now, None),
            r.path == path,
    {
        PoolCircuit {
            id,
            state: PoolCircuitState::Building,
            created_at: now,
            ready_at: None,
            last_used: None,
            use_count: 0,
            bytes_transferred: 0,
            path,
            bandwidth_estimate: 0,
            is_dirty: false,
        }
    }

    /// Mark circuit as ready
    pub fn mark_ready(&mut self, now: Instant)
        ensures
            *final(self) == old(self).readied(now),
    {
        self.state = PoolCircuitState::Ready;
        self.ready_at = Some(now);
    }

    /// Mark circuit as in use
    pub fn mark_in_use(&mut self, now: Instant)
        requires
            old(self).use_count < u64::MAX,
        ensures
            *final(self) == old(self).used(now),
    {
        self.state = PoolCircuitState::InUse;
        self.last_used = Some(now);
        self.use_count = self.use_count + 1;
        self.is_dirty = true;
    }

    /// Mark circuit as available
    pub fn mark_available(&mut self)
        ensures
            *final(self) == old(self).freed(),
    {
        if self.state == PoolCircuitState::InUse {
            self.state = PoolCircuitState::Ready;
        }
    }

    /// Mark circuit for retirement
    pub fn mark_retiring(&mut self)
        ensures
            *final(self) == (PoolCircuit { state: PoolCircuitState::Retiring, ..*old(self) }),
    {
        self.state = PoolCircuitState::Retiring;
    }

    /// Get time since circuit was built
    pub fn age(&self, now: Instant) -> (r: Duration)
        ensures
            r.nanos == elapsed(now, self.created_at),
    {
        now.duration_since(self.created_at)
    }

    /// Get time since last use
    pub fn idle_time(&self, now: Instant) -> (r: Option<Duration>)
        ensures
            match self.last_used {
                Some(t) => r matches Some(d) && d.nanos == elapsed(now, t),
                None => r is None,
            },
    {
        match self.last_used {
            Some(t) => Some(now.duration_since(t)),
            None => None,
        }
    }

    /// Whether the circuit may stand in the queue: it is ready, or marked for
    /// refresh since it was.
    pub open spec fn waiting(self) -> bool {
        self.state == PoolCircuitState::Ready || self.state == PoolCircuitState::Refreshing
    }

    /// Whether the circuit is ready and older than `max_age`.
    pub open spec fn stale(self, max_age: Duration, now: Instant) -> bool {
        elapsed(now, self.created_at) > max_age.nanos && self.state == PoolCircuitState::Ready
    }

    /// Check if circuit needs refresh based on age
    pub fn needs_refresh(&self, max_age: Duration, now: Instant) -> (r: bool)
        ensures
            r == self.stale(max_age, now),
    {
        self.age(now).nanos > max_age.nanos && self.state == PoolCircuitState::Ready
    }

    /// Check if circuit is available for use
    pub fn is_available(&self) -> (r: bool)
        ensures
            r == (self.state == PoolCircuitState::Ready),
    {
        self.state == PoolCircuitState::Ready
    }
}

/// Configuration for circuit pool
#[derive(Debug, Clone, Copy, PartialEq, Eq, Structural)]
pub struct CircuitPoolConfig {
    /// Minimum number of ready circuits to maintain
    pub min_pool_size: usize,
    /// Maximum number of circuits in the pool
    pub max_pool_size: usize,
    /// Number of circuits to build in advance
    pub pre_build_count: usize,
    /// Maximum circuit age before refresh
    pub max_circuit_age: Duration,
    /// Maximum idle time before retirement
    pub max_idle_time: Duration,
    /// Maximum use count before retirement
    pub max_use_count: u64,
    /// Maximum bytes before retirement
    pub max_bytes_transferred: u64,
    /// Circuit build timeout
    pub build_timeout: Duration,
    /// Pool refill check interval
    pub refill_interval: Duration,
    /// Whether to enable background building
    pub enable_background_build: bool,
    /// Maximum concurrent circuit builds
    pub max_concurrent_builds: usize,
}

/// The default configuration: three to ten circuits, five built in advance,
/// ten minutes of age, five of idleness, a hundred uses, 100 MiB, thirty
/// seconds to build, a check every ten seconds, two builds at a time.
pub open spec fn default_pool_config() -> CircuitPoolConfig {
    CircuitPoolConfig {
        min_pool_size: 3,
        max_pool_size: 10,
        pre_build_count: 5,
        max_circuit_age: Duration { nanos: 600_000_000_000 },
        max_idle_time: Duration { nanos: 300_000_000_000 },
        max_use_count: 100,
        max_bytes_transferred: 104_857_600,
        build_timeout: Duration { nanos: 30_000_000_000 },
        refill_interval: Duration { nanos: 10_000_000_000 },
        enable_background_build: true,
        max_concurrent_builds: 2,
    }
}

impl Default for CircuitPoolConfig {
    fn default() -> (r: CircuitPoolConfig)
        ensures
            r == default_pool_config(),
    {
        CircuitPoolConfig {
            min_pool_size: 3,
            max_pool_size: 10,
            pre_build_count: 5,
            max_circuit_age: Duration::from_secs(600),
            max_idle_time: Duration::from_secs(300),
            max_use_count: 100,
            max_bytes_transferred: 100 * 1024 * 1024,
            build_timeout: Duration::from_secs(30),
            refill_interval: Duration::from_secs(10),
            enable_background_build: true,
            max_concurrent_builds: 2,
        }
    }
}

/// Events emitted by the circuit pool
#[derive(Debug, Clone)]
pub enum PoolEvent {
    /// Circuit build started
    CircuitBuilding {
        /// The circuit.
        circuit_id: CircuitId,
    },
    /// Circuit is ready
    CircuitReady {
        /// The circuit.
        circuit_id: CircuitId,
    },
    /// Circuit build failed
    CircuitBuildFailed {
        /// The circuit.
        circuit_id: CircuitId,
        /// What went wrong.
        error: String,
    },
    /// Circuit acquired for use
    CircuitAcquired {
        /// The circuit.
        circuit_id: CircuitId,
    },
    /// Circuit released back to pool
    CircuitReleased {
        /// The circuit.
        circuit_id: CircuitId,
    },
    /// Circuit retired
    CircuitRetired {
        /// The circuit.
        circuit_id: CircuitId,
        /// Why it was retired.
        reason: RetireReason,
    },
    /// Pool refilled
    PoolRefilled {
        /// How many circuits were built.
        count: usize,
    },
    /// Pool is empty
    PoolEmpty,
    /// Circuit refresh started
    CircuitRefreshing {
        /// The circuit.
        circuit_id: CircuitId,
    },
}

/// Reason for circuit retirement
#[derive(Debug, Clone, Copy, PartialEq, Eq, Structural)]
pub enum RetireReason {
    /// Circuit too old
    Age,
    /// Circuit idle too long
    Idle,
    /// Too many uses
    UseCount,
    /// Too many bytes transferred
    BytesTransferred,
    /// Health check failure
    HealthCheck,
    /// Explicit closure
    Explicit,
}

/// Trait for building circuits
pub trait CircuitBuilder {
    /// Build a new circuit
    fn build_circuit(&self, circuit_id: CircuitId) -> Result<Vec<String>, PoolError>;

    /// Test if a circuit is working
    fn test_circuit(&self, path: &Vec<String>) -> Result<bool, PoolError>;

    /// Close a circuit
    fn close_circuit(&self, circuit_id: CircuitId) -> Result<(), PoolError>;
}

/// Errors that can occur in the pool
#[derive(Debug, Clone)]
pub enum PoolError {
    /// A circuit took too long to build.
    BuildTimeout,
    /// A circuit could not be built.
    BuildFailed(String),
    /// There is no circuit and none could be built.
    PoolEmpty,
    /// There are as many circuits as there may be.
    PoolAtCapacity,
    /// There is no such circuit.
    CircuitNotFound(CircuitId),
    /// The circuit cannot be used.
    CircuitNotAvailable(CircuitId),
    /// The circuit is not healthy.
    HealthCheckFailed(CircuitId),
    /// Too many circuits are being built.
    TooManyBuilds,
}

/// The contents of a [`PoolError`].
pub enum PoolFailure {
    /// A circuit took too long to build.
    BuildTimeout,
    /// A circuit could not be built.
    BuildFailed(Seq<char>),
    /// There is no circuit and none could be built.
    PoolEmpty,
    /// There are as many circuits as there may be.
    PoolAtCapacity,
    /// There is no such circuit.
    CircuitNotFound(CircuitId),
    /// The circuit cannot be used.
    CircuitNotAvailable(CircuitId),
    /// The circuit is not healthy.
    HealthCheckFailed(CircuitId),
    /// Too many circuits are being built.
    TooManyBuilds,
}

impl View for PoolError {
    type V = PoolFailure;

    open spec fn view(&self) -> PoolFailure {
        match self {
            PoolError::BuildTimeout => PoolFailure::BuildTimeout,
            PoolError::BuildFailed(m) => PoolFailure::BuildFailed(m@),
            PoolError::PoolEmpty => PoolFailure::PoolEmpty,
            PoolError::PoolAtCapacity => PoolFailure::PoolAtCapacity,
            PoolError::CircuitNotFound(id) => PoolFailure::CircuitNotFound(*id),
            PoolError::CircuitNotAvailable(id) => PoolFailure::CircuitNotAvailable(*id),
            PoolError::HealthCheckFailed(id) => PoolFailure::HealthCheckFailed(*id),
            PoolError::TooManyBuilds => PoolFailure::TooManyBuilds,
        }
    }
}

impl PoolFailure {
    /// The failure in words.
    pub open spec fn words(self) -> Seq<char> {
        match self {
            PoolFailure::BuildTimeout => "Circuit build timeout"@,
            PoolFailure::BuildFailed(m) => "Circuit build failed: "@ + m,
            PoolFailure::PoolEmpty => "Pool is empty"@,
            PoolFailure::PoolAtCapacity => "Pool is at capacity"@,
            PoolFailure::CircuitNotFound(id) => "Circuit not found: "@ + decimal_text(id as nat),
            PoolFailure::CircuitNotAvailable(id) => "Circuit not available: "@ + decimal_text(
                id as nat,
            ),
            PoolFailure::HealthCheckFailed(id) => "Health check failed for circuit "@
                + decimal_text(id as nat),
            PoolFailure::TooManyBuilds => "Too many concurrent builds"@,
        }
    }
}

impl PoolError {
    /// The error in words.
    pub fn to_string(&self) -> (r: String)
        ensures
            r@ == self@.words(),
    {
        match self {
            PoolError::BuildTimeout => "Circuit build timeout".to_owned(),
            PoolError::BuildFailed(m) => text::joined("Circuit build failed: ", m.as_str()),
            PoolError::PoolEmpty => "Pool is empty".to_owned(),
            PoolError::PoolAtCapacity => "Pool is at capacity".to_owned(),
            PoolError::CircuitNotFound(id) => text::joined(
                "Circuit not found: ",
                text::decimal(*id).as_str(),
            ),
            PoolError::CircuitNotAvailable(id) => text::joined(
                "Circuit not available: ",
                text::decimal(*id).as_str(),
            ),
            PoolError::HealthCheckFailed(id) => text::joined(
                "Health check failed for circuit ",
                text::decimal(*id).as_str(),
            ),
            PoolError::TooManyBuilds => "Too many concurrent builds".to_owned(),
        }
    }
}

/// Circuit pool for managing ready circuits
pub struct CircuitPool {
    /// Configuration
    pub config: CircuitPoolConfig,
    /// Circuits in the pool
    pub circuits: HashMap<CircuitId, PoolCircuit>,
    /// Queue of available circuit IDs
    pub available_queue: VecDeque<CircuitId>,
    /// Next circuit ID
    pub next_id: u64,
}

/// How an attempt to build a circuit ended.
#[derive(Debug, Clone)]
pub enum BuildOutcome {
    /// The circuit stands, along the given path.
    Built(Vec<String>),
    /// The builder gave up, with the given error.
    Failed(String),
    /// The builder took too long.
    TimedOut,
}

/// What the next step of an acquisition is.
#[derive(Debug, Clone, Copy, PartialEq, Eq, Structural)]
pub enum AcquireStep {
    /// The circuit came up but is worn out. It is to be retired for its health,
    /// and the next one tried.
    Retire(CircuitId),
    /// The circuit is in use now. The pool is to be refilled.
    Acquired(CircuitId),
    /// No circuit is available. One is to be built.
    Empty,
}

/// What the next step of a release is.
#[derive(Debug, Clone, Copy, PartialEq, Eq, Structural)]
pub enum ReleaseStep {
    /// The circuit is back in the queue.
    Released,
    /// The circuit has served its time. It is to be retired for its use.
    Retire,
}

/// What the next step after a change of usage is.
#[derive(Debug, Clone, Copy, PartialEq, Eq, Structural)]
pub enum UsageStep {
    /// The circuit goes on.
    Kept,
    /// The circuit has carried enough. It is to be retired for its bytes.
    Retire,
}

impl CircuitPool {
    /// Whether every circuit is filed under its number, the numbers to come are
    /// not in use, and the queue holds circuits of the pool that are available,
    /// each once.
    pub open spec fn wf(self) -> bool {
        &&& forall|id: u64| #[trigger]
            self.circuits@.dom().contains(id) ==> id < self.next_id && self.circuits@[id].id == id
        &&& forall|i: int|
            0 <= i < self.available_queue@.len() ==> #[trigger] self.available_queue@[i]
                < self.next_id
        &&& self.available_queue@.no_duplicates()
        &&& forall|i: int|
            0 <= i < self.available_queue@.len() ==> may_wait(
                self.circuits@,
                #[trigger] self.available_queue@[i],
            )
    }

    /// Whether the circuit has served its time: too old, idle too long, used
    /// too often or too much.
    pub open spec fn spent(self, c: PoolCircuit, now: Instant) -> bool {
        served(self.config, c, now)
    }

    /// How many circuits the queue lacks.
    pub open spec fn shortfall(self) -> int {
        if self.available_queue@.len() < self.config.min_pool_size {
            self.config.min_pool_size - self.available_queue@.len()
        } else {
            0
        }
    }

    /// Create a new circuit pool
    pub fn new(config: CircuitPoolConfig) -> (r: CircuitPool)
        ensures
            r.wf(),
            r.config == config,
            r.circuits@ == Map::<u64, PoolCircuit>::empty(),
            r.available_queue@ == Seq::<u64>::empty(),
            r.next_id == 1,
    {
        CircuitPool {
            config,
            circuits: HashMap::new(),
            available_queue: VecDeque::new(),
            next_id: 1,
        }
    }

    /// Whether a circuit may be built
    pub fn admit_build(&self) -> (r: Result<(), PoolError>)
        ensures
            match r {
                Ok(_) => self.circuits@.len() < self.config.max_pool_size,
                Err(e) => self.circuits@.len() >= self.config.max_pool_size && e@
                    == PoolFailure::PoolAtCapacity,
            },
    {
        if self.circuits.len() >= self.config.max_pool_size {
            Err(PoolError::PoolAtCapacity)
        } else {
            Ok(())
        }
    }

    /// Gives out the next number and files a circuit that is being built under
    /// it. The event to send is the start of the build.
    pub fn begin_build(&mut self, monitor: &mut CircuitHealthMonitor, now: Instant) -> (r: (
        CircuitId,
        PoolEvent,
    ))
        requires
            old(self).wf(),
            old(monitor).wf(),
            old(self).next_id < u64::MAX,
        ensures
            final(self).wf(),
            final(monitor).wf(),
            r.0 == old(self).next_id,
            r.1 == (PoolEvent::CircuitBuilding { circuit_id: r.0 }),
            final(self).config == old(self).config,
            final(self).next_id == old(self).next_id + 1,
            final(self).available_queue == old(self).available_queue,
            !old(self).circuits@.dom().contains(r.0),
            final(self).circuits@.dom() == old(self).circuits@.dom().insert(r.0),
            final(self).circuits@.remove(r.0) == old(self).circuits@,
            final(self).circuits@[r.0].is_new(
                r.0,
                Seq::empty(),
                PoolCircuitState::Building,
                now,
                None,
            ),
            old(monitor).changed_only(r.0, MetricsView::fresh(r.0, now), *final(monitor)),
            final(monitor).health_ranking@ == old(monitor).health_ranking@.push(r.0),
    {
        let id: u64 = self.next_id;
        self.next_id = self.next_id + 1;
        monitor.register_circuit(id, now);
        let placeholder = PoolCircuit::new(id, Vec::new(), now);
        assert(placeholder.path@ =~= Seq::<String>::empty());
        self.circuits.insert(id, placeholder);
        assert(self.circuits@.remove(id) =~= old(self).circuits@);
        assert(self.circuits@.dom() =~= old(self).circuits@.dom().insert(id));
        (id, PoolEvent::CircuitBuilding { circuit_id: id })
    }

    /// Takes the end of a build: a built circuit becomes ready and available, where
    /// it has not been retired meanwhile; a failed one leaves the pool and the
    /// monitor.
    pub fn finish_build(
        &mut self,
        monitor: &mut CircuitHealthMonitor,
        circuit_id: CircuitId,
        outcome: BuildOutcome,
        now: Instant,
    ) -> (r: (Result<CircuitId, PoolError>, PoolEvent))
        requires
            old(self).wf(),
            old(monitor).wf(),
            circuit_id < old(self).next_id,
        ensures
            final(self).wf(),
            final(monitor).wf(),
            final(self).config == old(self).config,
            final(self).next_id == old(self).next_id,
            match outcome {
                BuildOutcome::Built(path) => {
                    &&& r.0 == Ok::<CircuitId, PoolError>(circuit_id)
                    &&& r.1 == (PoolEvent::CircuitReady { circuit_id })
                    &&& if old(self).circuits@.dom().contains(circuit_id) {
                        &&& final(self).available_queue@ == enqueued(
                            old(self).available_queue@,
                            circuit_id,
                        )
                        &&& final(self).circuits@ == old(self).circuits@.insert(
                            circuit_id,
                            (PoolCircuit { path, ..old(self).circuits@[circuit_id] }).readied(now),
                        )
                    } else {
                        &&& final(self).available_queue@ == old(self).available_queue@
                        &&& final(self).circuits@ == old(self).circuits@
                    }
                    &&& *final(monitor) == *old(monitor)
                },
                BuildOutcome::Failed(error) => {
                    &&& r.0 matches Err(e) && e@ == PoolFailure::BuildFailed(error@)
                    &&& r.1 == (PoolEvent::CircuitBuildFailed { circuit_id, error })
                    &&& build_undone(
                        *old(self),
                        *old(monitor),
                        circuit_id,
                        *final(self),
                        *final(monitor),
                    )
                },
                BuildOutcome::TimedOut => {
                    &&& r.0 matches Err(e) && e@ == PoolFailure::BuildTimeout
                    &&& r.1 matches PoolEvent::CircuitBuildFailed { circuit_id: id, error } && id
                        == circuit_id && error@ == "Timeout"@
                    &&& build_undone(
                        *old(self),
                        *old(monitor),
                        circuit_id,
                        *final(self),
                        *final(monitor),
                    )
                },
            },
    {
        match outcome {
            BuildOutcome::Built(path) => {
                match self.circuits.remove(&circuit_id) {
                    Some(mut c) => {
                        c.path = path;
                        c.mark_ready(now);
                        self.circuits.insert(circuit_id, c);
                        assert(self.circuits@ =~= old(self).circuits@.insert(circuit_id, c));
                        self.enqueue(circuit_id);
                    },
                    None => {
                        assert(self.circuits@ =~= old(self).circuits@);
                    },
                }
                (Ok(circuit_id), PoolEvent::CircuitReady { circuit_id })
            },
            BuildOutcome::Failed(error) => {
                self.forget(circuit_id);
                monitor.unregister_circuit(circuit_id);
                let copy = error.clone();
                (
                    Err(PoolError::BuildFailed(copy)),
                    PoolEvent::CircuitBuildFailed { circuit_id, error },
                )
            },
            BuildOutcome::TimedOut => {
                self.forget(circuit_id);
                monitor.unregister_circuit(circuit_id);
                (
                    Err(PoolError::BuildTimeout),
                    PoolEvent::CircuitBuildFailed { circuit_id, error: "Timeout".to_owned() },
                )
            },
        }
    }

    /// Takes a circuit out of the pool and out of the queue.
    fn forget(&mut self, id: CircuitId)
        requires
            old(self).wf(),
        ensures
            final(self).wf(),
            final(self).config == old(self).config,
            final(self).next_id == old(self).next_id,
            final(self).circuits@ == old(self).circuits@.remove(id),
            final(self).available_queue@ == except(old(self).available_queue@, id),
    {
        self.circuits.remove(&id);
        self.available_queue = maps::queue_without(&self.available_queue, id);
        proof {
            self.lemma_queue_without(*old(self), id);
        }
    }

    fn is_queued(&self, id: CircuitId) -> (r: bool)
        ensures
            r == self.available_queue@.contains(id),
    {
        let mut i: usize = 0;
        while i < self.available_queue.len()
            invariant
                i <= self.available_queue@.len(),
                forall|k: int| 0 <= k < i ==> #[trigger] self.available_queue@[k] != id,
            decreases self.available_queue@.len() - i,
        {
            if self.available_queue[i] == id {
                assert(self.available_queue@[i as int] == id);
                return true;
            }
            i = i + 1;
        }
        false
    }

    /// Puts a circuit that may wait at the end of the queue, unless it is there.
    fn enqueue(&mut self, id: CircuitId)
        requires
            old(self).wf_but_for(id),
            id < old(self).next_id,
            may_wait(old(self).circuits@, id),
        ensures
            final(self).wf(),
            final(self).config == old(self).config,
            final(self).circuits == old(self).circuits,
            final(self).next_id == old(self).next_id,
            final(self).available_queue@ == enqueued(old(self).available_queue@, id),
    {
        if !self.is_queued(id) {
            self.available_queue.push_back(id);
            proof {
                let q = old(self).available_queue@;
                maps::lemma_push_contains(q, id);
                assert forall|i: int| 0 <= i < self.available_queue@.len() implies
                    #[trigger] self.available_queue@[i] < self.next_id && may_wait(
                    self.circuits@,
                    self.available_queue@[i],
                ) by {
                    if i < q.len() {
                        assert(self.available_queue@[i] == q[i]);
                    }
                }
            }
        }
    }

    /// [`CircuitPool::wf`], where the state of one circuit is not looked at.
    spec fn wf_but_for(self, id: CircuitId) -> bool {
        &&& forall|x: u64| #[trigger]
            self.circuits@.dom().contains(x) ==> x < self.next_id && self.circuits@[x].id == x
        &&& forall|i: int|
            0 <= i < self.available_queue@.len() ==> #[trigger] self.available_queue@[i]
                < self.next_id
        &&& self.available_queue@.no_duplicates()
        &&& forall|i: int|
            0 <= i < self.available_queue@.len() ==> #[trigger] self.available_queue@[i] == id
                || may_wait(self.circuits@, self.available_queue@[i])
    }

    /// Get a circuit from the pool, as far as the next outside work
    pub fn next_acquire_step(&mut self, monitor: &CircuitHealthMonitor, now: Instant) -> (r:
        AcquireStep)
        requires
            old(self).wf(),
            monitor.wf(),
            old(self).usable_count(),
        ensures
            final(self).wf(),
            final(self).usable_count() || r is Acquired,
            final(self).config == old(self).config,
            final(self).next_id == old(self).next_id,
            if old(self).available_queue@.len() == 0 {
                &&& r == AcquireStep::Empty
                &&& final(self).available_queue@ == old(self).available_queue@
                &&& final(self).circuits@ == old(self).circuits@
            } else {
                let id = old(self).available_queue@[0];
                &&& final(self).available_queue@ == old(self).available_queue@.skip(1)
                &&& if monitor.wants_rotation(id, now) {
                    &&& r == AcquireStep::Retire(id)
                    &&& final(self).circuits@ == old(self).circuits@
                } else {
                    &&& r == AcquireStep::Acquired(id)
                    &&& final(self).circuits@ == in_use(old(self).circuits@, id, now)
                }
            },
    {
        match self.available_queue.pop_front() {
            None => AcquireStep::Empty,
            Some(id) => {
                assert(self.available_queue@ =~= old(self).available_queue@.skip(1));
                assert forall|i: int| 0 <= i < self.available_queue@.len() implies
                    #[trigger] self.available_queue@[i] < self.next_id && may_wait(
                    self.circuits@,
                    self.available_queue@[i],
                ) && self.available_queue@[i] != id by {
                    assert(self.available_queue@[i] == old(self).available_queue@[i + 1]);
                    assert(old(self).available_queue@[0] != old(self).available_queue@[i + 1]);
                }
                if monitor.needs_rotation(id, now) {
                    return AcquireStep::Retire(id);
                }
                self.set_in_use(id, now);
                AcquireStep::Acquired(id)
            },
        }
    }

    /// Whether one more use of any circuit can be counted.
    pub open spec fn usable_count(self) -> bool {
        forall|id: u64| #[trigger]
            self.circuits@.dom().contains(id) ==> self.circuits@[id].use_count < u64::MAX
    }

    /// A queue that has lost a circuit is as sound as it was.
    proof fn lemma_queue_without(self, before: CircuitPool, id: CircuitId)
        requires
            before.wf(),
            self.available_queue@ == except(before.available_queue@, id),
            self.next_id == before.next_id,
            self.circuits@ == before.circuits@ || self.circuits@ == before.circuits@.remove(id),
        ensures
            self.wf(),
            !self.available_queue@.contains(id),
    {
        let q = before.available_queue@;
        maps::lemma_except(q, id);
        maps::lemma_except_distinct(q, id);
        assert forall|i: int| 0 <= i < self.available_queue@.len() implies
            #[trigger] self.available_queue@[i] < self.next_id && may_wait(
            self.circuits@,
            self.available_queue@[i],
        ) by {
            assert(q.contains(except(q, id)[i]));
            let k = choose|k: int| 0 <= k < q.len() && q[k] == except(q, id)[i];
            assert(may_wait(before.circuits@, q[k]));
        }
    }

    fn set_in_use(&mut self, id: CircuitId, now: Instant)
        requires
            old(self).wf(),
            !old(self).available_queue@.contains(id),
            old(self).circuits@.dom().contains(id) ==> old(self).circuits@[id].use_count
                < u64::MAX,
        ensures
            final(self).wf(),
            final(self).config == old(self).config,
            final(self).next_id == old(self).next_id,
            final(self).available_queue == old(self).available_queue,
            final(self).circuits@ == in_use(old(self).circuits@, id, now),
    {
        match self.circuits.remove(&id) {
            Some(mut c) => {
                c.mark_in_use(now);
                self.circuits.insert(id, c);
                assert(self.circuits@ =~= old(self).circuits@.insert(id, c));
            },
            None => {
                assert(self.circuits@ =~= old(self).circuits@);
            },
        }
    }

    /// Takes the end of a build on demand: the circuit leaves the queue and is in
    /// use at once, or the pool is empty. The event to send is the acquisition.
    pub fn acquire_built(
        &mut self,
        built: Result<CircuitId, PoolError>,
        now: Instant,
    ) -> (r: Result<(CircuitId, PoolEvent), PoolError>)
        requires
            old(self).wf(),
            built matches Ok(id) ==> old(self).circuits@.dom().contains(id)
                ==> old(self).circuits@[id].use_count < u64::MAX,
        ensures
            final(self).wf(),
            final(self).config == old(self).config,
            final(self).next_id == old(self).next_id,
            match built {
                Ok(id) => {
                    &&& final(self).available_queue@ == except(old(self).available_queue@, id)
                    &&& r == Ok::<(CircuitId, PoolEvent), PoolError>(
                        (id, PoolEvent::CircuitAcquired { circuit_id: id }),
                    )
                    &&& final(self).circuits@ == in_use(old(self).circuits@, id, now)
                },
                Err(_) => {
                    &&& r matches Err(e) && e@ == PoolFailure::PoolEmpty
                    &&& final(self).circuits@ == old(self).circuits@
                    &&& final(self).available_queue@ == old(self).available_queue@
                },
            },
    {
        match built {
            Ok(id) => {
                self.available_queue = maps::queue_without(&self.available_queue, id);
                proof {
                    self.lemma_queue_without(*old(self), id);
                }
                self.set_in_use(id, now);
                Ok((id, PoolEvent::CircuitAcquired { circuit_id: id }))
            },
            Err(_) => Err(PoolError::PoolEmpty),
        }
    }

    /// Return a circuit to the pool, as far as the next outside work
    pub fn begin_release(&mut self, circuit_id: CircuitId, now: Instant) -> (r: Result<
        ReleaseStep,
        PoolError,
    >)
        requires
            old(self).wf(),
        ensures
            final(self).wf(),
            final(self).config == old(self).config,
            final(self).next_id == old(self).next_id,
            if !old(self).circuits@.dom().contains(circuit_id) {
                &&& r matches Err(e) && e@ == PoolFailure::CircuitNotFound(circuit_id)
                &&& final(self).circuits@ == old(self).circuits@
                &&& final(self).available_queue@ == old(self).available_queue@
            } else if old(self).spent(old(self).circuits@[circuit_id], now) {
                &&& r == Ok::<ReleaseStep, PoolError>(ReleaseStep::Retire)
                &&& final(self).circuits@ == old(self).circuits@
                &&& final(self).available_queue@ == old(self).available_queue@
            } else {
                &&& r == Ok::<ReleaseStep, PoolError>(ReleaseStep::Released)
                &&& final(self).circuits@ == old(self).circuits@.insert(
                    circuit_id,
                    old(self).circuits@[circuit_id].freed(),
                )
                &&& final(self).available_queue@ == queue_with(
                    old(self).available_queue@,
                    old(self).circuits@[circuit_id].freed(),
                )
            },
    {
        match self.circuits.get(&circuit_id) {
            None => {
                return Err(PoolError::CircuitNotFound(circuit_id));
            },
            Some(c) => {
                if self.should_retire(c, now) {
                    return Ok(ReleaseStep::Retire);
                }
            },
        }
        match self.circuits.remove(&circuit_id) {
            Some(mut c) => {
                c.mark_available();
                let free = c.state == PoolCircuitState::Ready || c.state
                    == PoolCircuitState::Refreshing;
                self.circuits.insert(circuit_id, c);
                assert(self.circuits@ =~= old(self).circuits@.insert(circuit_id, c));
                if free {
                    self.enqueue(circuit_id);
                }
            },
            None => {},
        }
        Ok(ReleaseStep::Released)
    }

    /// Takes a circuit out of the pool and the monitor. It is then to be
    /// closed, the event sent and the pool refilled.
    pub fn begin_retire(
        &mut self,
        monitor: &mut CircuitHealthMonitor,
        circuit_id: CircuitId,
        reason: RetireReason,
    ) -> (r: Result<PoolEvent, PoolError>)
        requires
            old(self).wf(),
            old(monitor).wf(),
        ensures
            final(self).wf(),
            final(monitor).wf(),
            final(self).config == old(self).config,
            final(self).next_id == old(self).next_id,
            if old(self).circuits@.dom().contains(circuit_id) {
                &&& r == Ok::<PoolEvent, PoolError>(
                    PoolEvent::CircuitRetired { circuit_id, reason },
                )
                &&& final(self).circuits@ == old(self).circuits@.remove(circuit_id)
                &&& final(self).available_queue@ == except(old(self).available_queue@, circuit_id)
                &&& final(monitor).config == old(monitor).config
                &&& final(monitor).metrics@ == old(monitor).metrics@.remove(circuit_id)
                &&& final(monitor).health_ranking@ == except(old(monitor).health_ranking@, circuit_id)
            } else {
                &&& r matches Err(e) && e@ == PoolFailure::CircuitNotFound(circuit_id)
                &&& final(self).circuits@ == old(self).circuits@
                &&& final(self).available_queue@ == old(self).available_queue@
                &&& *final(monitor) == *old(monitor)
            },
    {
        match self.circuits.remove(&circuit_id) {
            None => {
                assert(self.circuits@ =~= old(self).circuits@);
                Err(PoolError::CircuitNotFound(circuit_id))
            },
            Some(mut c) => {
                c.mark_retiring();
                self.available_queue = maps::queue_without(&self.available_queue, circuit_id);
                monitor.unregister_circuit(circuit_id);
                proof {
                    assert(self.circuits@ =~= old(self).circuits@.remove(circuit_id));
                    self.lemma_queue_without(*old(self), circuit_id);
                }
                Ok(PoolEvent::CircuitRetired { circuit_id, reason })
            },
        }
    }

    /// How many circuits are in a state.
    pub open spec fn count_of(self, state: PoolCircuitState) -> nat {
        in_state(self.circuits@, state).len()
    }

    /// The sum of the circuits' bytes.
    pub open spec fn total_bytes(self) -> int {
        total(self.circuits@.dom(), |id: u64| self.circuits@[id].bytes_transferred as int)
    }

    /// The sum of the circuits' uses.
    pub open spec fn total_uses(self) -> int {
        total(self.circuits@.dom(), |id: u64| self.circuits@[id].use_count as int)
    }

    /// Get pool statistics
    pub fn get_statistics(&self) -> (r: PoolStatistics)
        requires
            self.total_bytes() <= u64::MAX,
            self.total_uses() <= u64::MAX,
        ensures
            r == self.statistics(),
    {
        let ks = maps::keys(&self.circuits);
        let ghost dom = self.circuits@.dom();
        let ghost byt = |id: u64| self.circuits@[id].bytes_transferred as int;
        let ghost use_ = |id: u64| self.circuits@[id].use_count as int;
        let ghost is_b = |id: u64| self.circuits@[id].state == PoolCircuitState::Building;
        let ghost is_r = |id: u64| self.circuits@[id].state == PoolCircuitState::Ready;
        let ghost is_u = |id: u64| self.circuits@[id].state == PoolCircuitState::InUse;
        let ghost is_t = |id: u64| self.circuits@[id].state == PoolCircuitState::Retiring;
        let mut building: usize = 0;
        let mut ready: usize = 0;
        let mut in_use: usize = 0;
        let mut retiring: usize = 0;
        let mut total_bytes: u64 = 0;
        let mut total_uses: u64 = 0;
        let mut i: usize = 0;
        proof {
            maps::lemma_seen_ends(ks@);
            maps::lemma_count_empty(is_b);
            maps::lemma_count_empty(is_r);
            maps::lemma_count_empty(is_u);
            maps::lemma_count_empty(is_t);
        }
        while i < ks.len()
            invariant
                i <= ks@.len(),
                ks@.no_duplicates(),
                ks@.to_set() == dom,
                dom == self.circuits@.dom(),
                dom.finite(),
                byt == (|id: u64| self.circuits@[id].bytes_transferred as int),
                use_ == (|id: u64| self.circuits@[id].use_count as int),
                is_b == (|id: u64| self.circuits@[id].state == PoolCircuitState::Building),
                is_r == (|id: u64| self.circuits@[id].state == PoolCircuitState::Ready),
                is_u == (|id: u64| self.circuits@[id].state == PoolCircuitState::InUse),
                is_t == (|id: u64| self.circuits@[id].state == PoolCircuitState::Retiring),
                total(dom, byt) <= u64::MAX,
                total(dom, use_) <= u64::MAX,
                building == count(seen(ks@, i as int), is_b),
                ready == count(seen(ks@, i as int), is_r),
                in_use == count(seen(ks@, i as int), is_u),
                retiring == count(seen(ks@, i as int), is_t),
                building <= i,
                ready <= i,
                in_use <= i,
                retiring <= i,
                total_bytes == total(seen(ks@, i as int), byt),
                total_uses == total(seen(ks@, i as int), use_),
            decreases ks@.len() - i,
        {
            let id: u64 = ks[i];
            proof {
                maps::lemma_seen_next(ks@, i as int);
                let s = seen(ks@, i as int);
                maps::lemma_count_insert(s, id, is_b);
                maps::lemma_count_insert(s, id, is_r);
                maps::lemma_count_insert(s, id, is_u);
                maps::lemma_count_insert(s, id, is_t);
                maps::lemma_total_insert(s, id, byt);
                maps::lemma_total_insert(s, id, use_);
                assert forall|x: u64| #[trigger] byt(x) >= 0 by {}
                assert forall|x: u64| #[trigger] use_(x) >= 0 by {}
                assert(s.insert(id).subset_of(dom));
                maps::lemma_total_part(s.insert(id), dom, byt);
                maps::lemma_total_part(s.insert(id), dom, use_);
                maps::lemma_total_part(s, dom, byt);
                maps::lemma_total_part(s, dom, use_);
            }
            match self.circuits.get(&id) {
                Some(c) => {
                    match c.state {
                        PoolCircuitState::Building => {
                            building = building + 1;
                        },
                        PoolCircuitState::Ready => {
                            ready = ready + 1;
                        },
                        PoolCircuitState::InUse => {
                            in_use = in_use + 1;
                        },
                        PoolCircuitState::Retiring => {
                            retiring = retiring + 1;
                        },
                        PoolCircuitState::Refreshing => {},
                    }
                    total_bytes = total_bytes + c.bytes_transferred;
                    total_uses = total_uses + c.use_count;
                },
                None => {},
            }
            i = i + 1;
        }
        proof {
            maps::lemma_seen_ends(ks@);
            let all = self.circuits@;
            assert(in_state(all, PoolCircuitState::Building) =~= dom.filter(is_b));
            assert(in_state(all, PoolCircuitState::Ready) =~= dom.filter(is_r));
            assert(in_state(all, PoolCircuitState::InUse) =~= dom.filter(is_u));
            assert(in_state(all, PoolCircuitState::Retiring) =~= dom.filter(is_t));
        }
        PoolStatistics {
            total_circuits: self.circuits.len(),
            building_circuits: building,
            ready_circuits: ready,
            in_use_circuits: in_use,
            retiring_circuits: retiring,
            available_in_queue: self.available_queue.len(),
            total_bytes_transferred: total_bytes,
            total_circuit_uses: total_uses,
        }
    }

    /// The pool in figures.
    pub open spec fn statistics(self) -> PoolStatistics {
        PoolStatistics {
            total_circuits: self.circuits@.len() as usize,
            building_circuits: self.count_of(PoolCircuitState::Building) as usize,
            ready_circuits: self.count_of(PoolCircuitState::Ready) as usize,
            in_use_circuits: self.count_of(PoolCircuitState::InUse) as usize,
            retiring_circuits: self.count_of(PoolCircuitState::Retiring) as usize,
            available_in_queue: self.available_queue@.len() as usize,
            total_bytes_transferred: self.total_bytes() as u64,
            total_circuit_uses: self.total_uses() as u64,
        }
    }

    /// Get circuit information
    pub fn get_circuit(&self, circuit_id: CircuitId) -> (r: Option<&PoolCircuit>)
        ensures
            match r {
                Some(c) => self.circuits@.dom().contains(circuit_id) && *c
                    == self.circuits@[circuit_id],
                None => !self.circuits@.dom().contains(circuit_id),
            },
    {
        self.circuits.get(&circuit_id)
    }

    /// Update circuit usage stats, as far as the next outside work
    pub fn add_usage(&mut self, circuit_id: CircuitId, bytes_transferred: u64) -> (r:
        Result<UsageStep, PoolError>)
        requires
            old(self).wf(),
            old(self).circuits@.dom().contains(circuit_id)
                ==> old(self).circuits@[circuit_id].bytes_transferred + bytes_transferred
                <= u64::MAX,
        ensures
            final(self).wf(),
            final(self).config == old(self).config,
            final(self).next_id == old(self).next_id,
            final(self).available_queue == old(self).available_queue,
            if old(self).circuits@.dom().contains(circuit_id) {
                let c = PoolCircuit {
                    bytes_transferred: (old(self).circuits@[circuit_id].bytes_transferred
                        + bytes_transferred) as u64,
                    ..old(self).circuits@[circuit_id]
                };
                &&& final(self).circuits@ == old(self).circuits@.insert(circuit_id, c)
                &&& r == Ok::<UsageStep, PoolError>(
                    if c.bytes_transferred >= old(self).config.max_bytes_transferred {
                        UsageStep::Retire
                    } else {
                        UsageStep::Kept
                    },
                )
            } else {
                &&& r matches Err(e) && e@ == PoolFailure::CircuitNotFound(circuit_id)
                &&& final(self).circuits@ == old(self).circuits@
            },
    {
        match self.circuits.remove(&circuit_id) {
            None => {
                assert(self.circuits@ =~= old(self).circuits@);
                Err(PoolError::CircuitNotFound(circuit_id))
            },
            Some(mut c) => {
                c.bytes_transferred = c.bytes_transferred + bytes_transferred;
                let carried: u64 = c.bytes_transferred;
                self.circuits.insert(circuit_id, c);
                assert(self.circuits@ =~= old(self).circuits@.insert(circuit_id, c));
                if carried >= self.config.max_bytes_transferred {
                    Ok(UsageStep::Retire)
                } else {
                    Ok(UsageStep::Kept)
                }
            },
        }
    }

    /// Check if a circuit should be retired
    pub fn should_retire(&self, circuit: &PoolCircuit, now: Instant) -> (r: bool)
        ensures
            r == self.spent(*circuit, now),
    {
        if circuit.age(now).nanos > self.config.max_circuit_age.nanos {
            return true;
        }
        match circuit.idle_time(now) {
            Some(idle) => {
                if idle.nanos > self.config.max_idle_time.nanos {
                    return true;
                }
            },
            None => {},
        }
        if circuit.use_count >= self.config.max_use_count {
            return true;
        }
        circuit.bytes_transferred >= self.config.max_bytes_transferred
    }

    /// How many circuits are to be built to fill the queue up
    pub fn refill_needed(&self) -> (r: usize)
        ensures
            r == self.shortfall(),
    {
        if self.available_queue.len() < self.config.min_pool_size {
            self.config.min_pool_size - self.available_queue.len()
        } else {
            0
        }
    }

    /// Gives out the next number for a build in the background, which is not
    /// filed before it has ended.
    pub fn begin_background_build(
        &mut self,
        monitor: &mut CircuitHealthMonitor,
        now: Instant,
    ) -> (r: CircuitId)
        requires
            old(self).wf(),
            old(monitor).wf(),
            old(self).next_id < u64::MAX,
        ensures
            final(self).wf(),
            final(monitor).wf(),
            r == old(self).next_id,
            final(self).next_id == old(self).next_id + 1,
            final(self).config == old(self).config,
            final(self).circuits == old(self).circuits,
            final(self).available_queue == old(self).available_queue,
            old(monitor).changed_only(r, MetricsView::fresh(r, now), *final(monitor)),
            final(monitor).health_ranking@ == old(monitor).health_ranking@.push(r),
    {
        let id: u64 = self.next_id;
        self.next_id = self.next_id + 1;
        monitor.register_circuit(id, now);
        id
    }

    /// Takes the end of a build in the background: the circuit's path, where it
    /// was built in time. The event to send is that it is ready.
    pub fn finish_background_build(
        &mut self,
        monitor: &mut CircuitHealthMonitor,
        circuit_id: CircuitId,
        path: Option<Vec<String>>,
        now: Instant,
    ) -> (r: Option<PoolEvent>)
        requires
            old(self).wf(),
            old(monitor).wf(),
            circuit_id < old(self).next_id,
        ensures
            final(self).wf(),
            final(monitor).wf(),
            final(self).config == old(self).config,
            final(self).next_id == old(self).next_id,
            match path {
                Some(p) => {
                    &&& r == Some(PoolEvent::CircuitReady { circuit_id })
                    &&& final(self).available_queue@ == enqueued(
                        old(self).available_queue@,
                        circuit_id,
                    )
                    &&& final(self).circuits@.dom() == old(self).circuits@.dom().insert(circuit_id)
                    &&& final(self).circuits@.remove(circuit_id) == old(self).circuits@.remove(
                        circuit_id,
                    )
                    &&& final(self).circuits@[circuit_id].is_new(
                        circuit_id,
                        p@,
                        PoolCircuitState::Ready,
                        now,
                        Some(now),
                    )
                    &&& final(self).circuits@[circuit_id].path == p
                    &&& *final(monitor) == *old(monitor)
                },
                None => {
                    &&& r is None
                    &&& final(self).available_queue == old(self).available_queue
                    &&& final(self).circuits == old(self).circuits
                    &&& final(monitor).config == old(monitor).config
                    &&& final(monitor).metrics@ == old(monitor).metrics@.remove(circuit_id)
                    &&& final(monitor).health_ranking@ == except(old(monitor).health_ranking@, circuit_id)
                },
            },
    {
        match path {
            Some(p) => {
                let mut c = PoolCircuit::new(circuit_id, p, now);
                c.mark_ready(now);
                self.circuits.insert(circuit_id, c);
                assert(self.circuits@.remove(circuit_id) =~= old(self).circuits@.remove(
                    circuit_id,
                ));
                assert(self.circuits@.dom() =~= old(self).circuits@.dom().insert(circuit_id));
                self.enqueue(circuit_id);
                Some(PoolEvent::CircuitReady { circuit_id })
            },
            None => {
                monitor.unregister_circuit(circuit_id);
                None
            },
        }
    }

    /// One pass of the refresh check: ready circuits that are too old are marked
    /// for refresh
    pub fn mark_refreshing(&mut self, now: Instant)
        requires
            old(self).wf(),
        ensures
            final(self).wf(),
            final(self).config == old(self).config,
            final(self).next_id == old(self).next_id,
            final(self).available_queue == old(self).available_queue,
            final(self).circuits@.dom() == old(self).circuits@.dom(),
            forall|id: u64| #[trigger]
                final(self).circuits@.dom().contains(id) ==> final(self).circuits@[id]
                    == refreshed(
                    old(self).circuits@[id],
                    old(self).config.max_circuit_age,
                    now,
                ),
    {
        let ks = maps::keys(&self.circuits);
        let ghost dom = self.circuits@.dom();
        let max_age: Duration = self.config.max_circuit_age;
        let mut i: usize = 0;
        proof {
            maps::lemma_seen_ends(ks@);
        }
        while i < ks.len()
            invariant
                self.wf(),
                i <= ks@.len(),
                ks@.no_duplicates(),
                ks@.to_set() == dom,
                dom == old(self).circuits@.dom(),
                self.circuits@.dom() == dom,
                self.config == old(self).config,
                self.next_id == old(self).next_id,
                self.available_queue == old(self).available_queue,
                max_age == old(self).config.max_circuit_age,
                forall|id: u64|
                    dom.contains(id) ==> #[trigger] self.circuits@[id] == (if seen(
                        ks@,
                        i as int,
                    ).contains(id) {
                        refreshed(old(self).circuits@[id], max_age, now)
                    } else {
                        old(self).circuits@[id]
                    }),
            decreases ks@.len() - i,
        {
            let id: u64 = ks[i];
            proof {
                maps::lemma_seen_next(ks@, i as int);
                assert(dom.contains(id));
            }
            match self.circuits.remove(&id) {
                Some(mut c) => {
                    if c.needs_refresh(max_age, now) {
                        c.state = PoolCircuitState::Refreshing;
                    }
                    self.circuits.insert(id, c);
                },
                None => {},
            }
            assert(self.circuits@.dom() =~= dom);
            i = i + 1;
        }
        proof {
            maps::lemma_seen_ends(ks@);
        }
    }
}

/// The circuits in a state.
pub open spec fn in_state(circuits: Map<u64, PoolCircuit>, state: PoolCircuitState) -> Set<u64> {
    circuits.dom().filter(|id: u64| circuits[id].state == state)
}

/// Whether the circuit has served its time: too old, idle too long, used too
/// often or too much.
pub open spec fn served(config: CircuitPoolConfig, c: PoolCircuit, now: Instant) -> bool {
    ||| elapsed(now, c.created_at) > config.max_circuit_age.nanos
    ||| c.last_used matches Some(t) && elapsed(now, t) > config.max_idle_time.nanos
    ||| c.use_count >= config.max_use_count
    ||| c.bytes_transferred >= config.max_bytes_transferred
}

/// By default a circuit has served its time once it is older than ten minutes, idle
/// for more than five since its last use, used a hundred times, or has carried
/// 100 MiB.
pub proof fn law_served_by_default(c: PoolCircuit, now: Instant)
    ensures
        served(default_pool_config(), c, now) <==> now.nanos - c.created_at.nanos > secs(600) || (
        c.last_used matches Some(t) && now.nanos - t.nanos > secs(300)) || c.use_count >= 100
            || c.bytes_transferred >= 100 * 1024 * 1024,
{
}

/// A circuit that has served its time has served it later as well, and under
/// stricter limits; and use alone never gives it more time than its uses and its
/// age allow.
pub proof fn law_served_stays_served(
    config: CircuitPoolConfig,
    stricter: CircuitPoolConfig,
    c: PoolCircuit,
    now: Instant,
    later: Instant,
)
    requires
        served(config, c, now),
        now.nanos <= later.nanos,
        stricter.max_circuit_age.nanos <= config.max_circuit_age.nanos,
        stricter.max_idle_time.nanos <= config.max_idle_time.nanos,
        stricter.max_use_count <= config.max_use_count,
        stricter.max_bytes_transferred <= config.max_bytes_transferred,
    ensures
        served(stricter, c, later),
{
}

/// A new circuit has not served its time, by default.
pub proof fn law_new_circuits_have_not_served(
    c: PoolCircuit,
    path: Seq<String>,
    state: PoolCircuitState,
    ready_at: Option<Instant>,
    now: Instant,
)
    requires
        c.is_new(c.id, path, state, now, ready_at),
    ensures
        !served(default_pool_config(), c, now),
{
}

/// A use counts once, is the latest, and makes the circuit dirty; a circuit that is
/// freed after it is ready, and remembers the use. Freeing a circuit that is not in
/// use changes nothing, nor does freeing one twice.
pub proof fn law_use_and_release(c: PoolCircuit, now: Instant)
    requires
        c.use_count < u64::MAX,
    ensures
        c.used(now).state == PoolCircuitState::InUse,
        c.used(now).use_count == c.use_count + 1,
        c.used(now).last_used == Some(now),
        c.used(now).is_dirty,
        c.used(now).created_at == c.created_at && c.used(now).bytes_transferred
            == c.bytes_transferred && c.used(now).id == c.id,
        c.used(now).freed().state == PoolCircuitState::Ready,
        c.used(now).freed().use_count == c.use_count + 1,
        c.state != PoolCircuitState::InUse ==> c.freed() == c,
        c.freed().freed() == c.freed(),
        c.readied(now).state == PoolCircuitState::Ready && c.readied(now).ready_at == Some(now),
        c.readied(now).use_count == c.use_count,
{
}

/// The refresh check marks a circuit exactly if it is ready and older than the limit,
/// changes nothing else of it, and marks nothing the second time.
pub proof fn law_what_is_refreshed(c: PoolCircuit, max_age: Duration, now: Instant)
    ensures
        ({
            let after = refreshed(c, max_age, now);
            &&& after.state != c.state <==> c.state == PoolCircuitState::Ready && now.nanos
                - c.created_at.nanos > max_age.nanos
            &&& after.state != c.state ==> after.state == PoolCircuitState::Refreshing
            &&& (PoolCircuit { state: c.state, ..after }) == c
            &&& refreshed(after, max_age, now) == after
            &&& after.waiting() == c.waiting()
        }),
{
}

/// The circuits in the five states are the circuits of the pool, each counted once.
pub proof fn law_every_circuit_is_in_one_state(pool: CircuitPool, id: u64)
    requires
        pool.circuits@.dom().finite(),
    ensures
        pool.count_of(PoolCircuitState::Building) + pool.count_of(PoolCircuitState::Ready)
            + pool.count_of(PoolCircuitState::InUse) + pool.count_of(PoolCircuitState::Refreshing)
            + pool.count_of(PoolCircuitState::Retiring) == pool.circuits@.len(),
        forall|state: PoolCircuitState| #[trigger]
            in_state(pool.circuits@, state).contains(id) <==> pool.circuits@.dom().contains(id)
                && pool.circuits@[id].state == state,
{
    let all = pool.circuits@.dom();
    let a = in_state(pool.circuits@, PoolCircuitState::Building);
    let b = in_state(pool.circuits@, PoolCircuitState::Ready);
    let c = in_state(pool.circuits@, PoolCircuitState::InUse);
    let d = in_state(pool.circuits@, PoolCircuitState::Refreshing);
    let e = in_state(pool.circuits@, PoolCircuitState::Retiring);
    vstd::set_lib::lemma_set_subset_finite(all, a);
    vstd::set_lib::lemma_set_subset_finite(all, b);
    vstd::set_lib::lemma_set_subset_finite(all, c);
    vstd::set_lib::lemma_set_subset_finite(all, d);
    vstd::set_lib::lemma_set_subset_finite(all, e);
    vstd::set_lib::lemma_set_disjoint_lens(a, b);
    vstd::set_lib::lemma_set_disjoint_lens(a + b, c);
    vstd::set_lib::lemma_set_disjoint_lens(a + b + c, d);
    vstd::set_lib::lemma_set_disjoint_lens(a + b + c + d, e);
    assert(a + b + c + d + e =~= all);
}

/// With as many circuits more as it lacks the queue has as many as it should, and no
/// more than that where it lacked any.
pub proof fn law_what_the_queue_lacks(pool: CircuitPool)
    ensures
        pool.shortfall() >= 0,
        pool.available_queue@.len() + pool.shortfall() >= pool.config.min_pool_size,
        pool.shortfall() > 0 ==> pool.available_queue@.len() + pool.shortfall()
            == pool.config.min_pool_size,
{
}

/// A circuit that joins the queue is in it once, at the end where it was not in it,
/// and the others keep their places.
pub proof fn law_joining_the_queue(queue: Seq<u64>, id: CircuitId)
    requires
        queue.no_duplicates(),
    ensures
        enqueued(queue, id).contains(id),
        enqueued(queue, id).no_duplicates(),
        queue.is_prefix_of(enqueued(queue, id)),
        !queue.contains(id) ==> enqueued(queue, id).last() == id && enqueued(queue, id).len()
            == queue.len() + 1,
        queue.contains(id) ==> enqueued(queue, id) == queue,
{
    if !queue.contains(id) {
        assert(queue.push(id)[queue.len() as int] == id);
    }
}

/// Whether the circuit `id` may stand in the queue: it is in the pool, and
/// available.
pub open spec fn may_wait(circuits: Map<u64, PoolCircuit>, id: CircuitId) -> bool {
    circuits.dom().contains(id) && circuits[id].waiting()
}

/// The queue with `id` at its end, unless it stands in it already.
pub open spec fn enqueued(queue: Seq<u64>, id: CircuitId) -> Seq<u64> {
    if queue.contains(id) {
        queue
    } else {
        queue.push(id)
    }
}

/// The queue after a release of the circuit `c`: it is in the queue where it is
/// available.
pub open spec fn queue_with(queue: Seq<u64>, c: PoolCircuit) -> Seq<u64> {
    if c.waiting() {
        enqueued(queue, c.id)
    } else {
        queue
    }
}

/// The circuits with `id` in use once more, where it is among them.
pub open spec fn in_use(circuits: Map<u64, PoolCircuit>, id: CircuitId, now: Instant) -> Map<
    u64,
    PoolCircuit,
> {
    if circuits.dom().contains(id) {
        circuits.insert(id, circuits[id].used(now))
    } else {
        circuits
    }
}

/// A circuit after the refresh check.
pub open spec fn refreshed(c: PoolCircuit, max_age: Duration, now: Instant) -> PoolCircuit {
    if c.stale(max_age, now) {
        PoolCircuit { state: PoolCircuitState::Refreshing, ..c }
    } else {
        c
    }
}

/// What a failed build does: the circuit leaves the pool, its queue and the
/// monitor.
pub open spec fn build_undone(
    pool: CircuitPool,
    monitor: CircuitHealthMonitor,
    circuit_id: CircuitId,
    pool_after: CircuitPool,
    monitor_after: CircuitHealthMonitor,
) -> bool {
    &&& pool_after.circuits@ == pool.circuits@.remove(circuit_id)
    &&& pool_after.available_queue@ == except(pool.available_queue@, circuit_id)
    &&& monitor_after.config == monitor.config
    &&& monitor_after.metrics@ == monitor.metrics@.remove(circuit_id)
    &&& monitor_after.health_ranking@ == except(monitor.health_ranking@, circuit_id)
}

/// A run of builds that fills the queue up: how many are left to do and how
/// many have been done.
#[derive(Debug, Clone, Copy, PartialEq, Eq, Structural)]
pub struct Refill {
    /// Builds left to do.
    pub left: usize,
    /// Builds done.
    pub built: usize,
}

impl Refill {
    /// A run of `needed` builds.
    pub fn new(needed: usize) -> (r: Refill)
        ensures
            r == (Refill { left: needed, built: 0 }),
    {
        Refill { left: needed, built: 0 }
    }

    /// Takes the end of a build: a failure ends the run.
    pub fn record(&mut self, built: bool)
        requires
            old(self).left > 0,
            old(self).left + old(self).built <= usize::MAX,
        ensures
            *final(self) == (if built {
                Refill {
                    left: (old(self).left - 1) as usize,
                    built: (old(self).built + 1) as usize,
                }
            } else {
                Refill { left: 0, built: old(self).built }
            }),
            final(self).left + final(self).built <= usize::MAX,
            final(self).left < old(self).left,
    {
        if built {
            self.left = self.left - 1;
            self.built = self.built + 1;
        } else {
            self.left = 0;
        }
    }

    /// The event to send at the end of the run: the count of circuits, where
    /// there are any.
    pub fn event(&self) -> (r: Option<PoolEvent>)
        ensures
            r == (if self.built > 0 {
                Some(PoolEvent::PoolRefilled { count: self.built })
            } else {
                None::<PoolEvent>
            }),
    {
        if self.built > 0 {
            Some(PoolEvent::PoolRefilled { count: self.built })
        } else {
            None
        }
    }
}

/// Pool statistics
#[derive(Debug, Clone, Copy, PartialEq, Eq, Structural)]
pub struct PoolStatistics {
    /// Total number of circuits
    pub total_circuits: usize,
    /// Number of circuits being built
    pub building_circuits: usize,
    /// Number of ready circuits
    pub ready_circuits: usize,
    /// Number of circuits in use
    pub in_use_circuits: usize,
    /// Number of circuits being retired
    pub retiring_circuits: usize,
    /// Number available in queue
    pub available_in_queue: usize,
    /// Total bytes transferred through pool
    pub total_bytes_transferred: u64,
    /// Total circuit uses
    pub total_circuit_uses: u64,
}

} // verus!
