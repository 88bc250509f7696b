//! Circuit Rotation Module
//!
//! Circuit rotation strategies, after Tor's practice:
//! - Time-based rotation (every N minutes)
//! - Usage-based rotation (after N bytes/connections)
//! - Emergency rotation on failure detection
//! - Predictive rotation based on health metrics
//!
//! Rotation times may be jittered. The jittered interval is a random
//! floating-point product and is computed by the caller; it comes in beside the
//! policy, which says whether it counts and how far it may go.

use super::health::{
    CircuitHealthMonitor, FailureType, HealthMonitorConfig, MetricsView,
};
use super::pool::{CircuitBuilder, CircuitId, CircuitPool, PoolEvent, RetireReason};
use super::supply::{
    acquired, at_most, built_and_closed, can_number, closed_by, dealt_with, exchanged,
    failures_explained, follows, fresh_since, lemma_acquisition_keeps, lemma_explained_on,
    lemma_follows_on, lemma_fresh_acquired, lemma_fresh_retired, lemma_settled_acquired,
    lemma_settled_retired, refills_last, retired_if_there, settled, settled_but_for, supply,
    worn_are_closed, PoolView, Supply,
};
use crate::maps;
use crate::maps::{count, seen, total};
use crate::text;
use crate::text::decimal_text;
use crate::time::{elapsed, secs, Duration, Instant};
use std::collections::HashMap;
use vstd::prelude::*;
use vstd::string::*;

verus! {

/// Rotation trigger type
#[derive(Debug, Clone, Copy, PartialEq, Eq, Hash, Structural)]
pub enum RotationTrigger {
    /// Time-based rotation
    TimeBased,
    /// Usage-based rotation (bytes transferred)
    UsageBased,
    /// Connection count rotation
    ConnectionBased,
    /// Health-based rotation
    HealthBased,
    /// Emergency rotation on failure
    Emergency,
    /// Manual rotation
    Manual,
}

impl RotationTrigger {
    /// The trigger in words.
    pub open spec fn words(self) -> Seq<char> {
        match self {
            RotationTrigger::TimeBased => "time-based"@,
            RotationTrigger::UsageBased => "usage-based"@,
            RotationTrigger::ConnectionBased => "connection-based"@,
            RotationTrigger::HealthBased => "health-based"@,
            RotationTrigger::Emergency => "emergency"@,
            RotationTrigger::Manual => "manual"@,
        }
    }

    /// The trigger in words.
    pub fn to_string(&self) -> (r: String)
        ensures
            r@ == self.words(),
    {
        match self {
            RotationTrigger::TimeBased => "time-based".to_owned(),
            RotationTrigger::UsageBased => "usage-based".to_owned(),
            RotationTrigger::ConnectionBased => "connection-based".to_owned(),
            RotationTrigger::HealthBased => "health-based".to_owned(),
            RotationTrigger::Emergency => "emergency".to_owned(),
            RotationTrigger::Manual => "manual".to_owned(),
        }
    }
}

/// Rotation policy configuration
#[derive(Debug, Clone, Copy, PartialEq, Eq, Structural)]
pub struct RotationPolicy {
    /// Enable time-based rotation
    pub enable_time_rotation: bool,
    /// Time between rotations
    pub rotation_interval: Duration,
    /// Enable usage-based rotation
    pub enable_usage_rotation: bool,
    /// Bytes threshold for rotation
    pub bytes_threshold: u64,
    /// Enable connection-based rotation
    pub enable_connection_rotation: bool,
    /// Connection count threshold
    pub connection_threshold: u64,
    /// Enable health-based rotation
    pub enable_health_rotation: bool,
    /// Health score threshold (below this triggers rotation)
    pub health_score_threshold: u8,
    /// Minimum circuit lifetime (don't rotate too quickly)
    pub min_circuit_lifetime: Duration,
    /// Maximum circuit lifetime (force rotation)
    pub max_circuit_lifetime: Duration,
    /// Randomize rotation times to avoid patterns
    pub randomize_rotation: bool,
    /// Rotation jitter (percentage of interval)
    pub rotation_jitter_percent: u8,
}

/// The default policy: every kind of rotation on, ten minutes between
/// rotations, 100 MiB, a thousand connections, a score of fifty, a life of one
/// minute to one hour, ten per cent of jitter.
pub open spec fn default_rotation_policy() -> RotationPolicy {
    RotationPolicy {
        enable_time_rotation: true,
        rotation_interval: Duration { nanos: 600_000_000_000 },
        enable_usage_rotation: true,
        bytes_threshold: 104_857_600,
        enable_connection_rotation: true,
        connection_threshold: 1000,
        enable_health_rotation: true,
        health_score_threshold: 50,
        min_circuit_lifetime: Duration { nanos: 60_000_000_000 },
        max_circuit_lifetime: Duration { nanos: 3_600_000_000_000 },
        randomize_rotation: true,
        rotation_jitter_percent: 10,
    }
}

impl Default for RotationPolicy {
    fn default() -> (r: RotationPolicy)
        ensures
            r == default_rotation_policy(),
    {
        RotationPolicy {
            enable_time_rotation: true,
            rotation_interval: Duration::from_secs(600),
            enable_usage_rotation: true,
            bytes_threshold: 100 * 1024 * 1024,
            enable_connection_rotation: true,
            connection_threshold: 1000,
            enable_health_rotation: true,
            health_score_threshold: 50,
            min_circuit_lifetime: Duration::from_secs(60),
            max_circuit_lifetime: Duration::from_secs(3600),
            randomize_rotation: true,
            rotation_jitter_percent: 10,
        }
    }
}

/// The longest span that a jitter of so many per cent makes of `duration`, in
/// nanoseconds.
pub open spec fn longest(duration: Duration, jitter_percent: u8) -> int {
    duration.nanos * (100 + jitter_percent) / 100
}

/// The span with jitter, which would make it `lengthened`: the span itself where
/// there is no jitter, and never less than that nor more than the percentage
/// allows.
pub open spec fn jittered_span(
    duration: Duration,
    jitter_percent: u8,
    lengthened: Duration,
) -> Duration {
    if jitter_percent == 0 || lengthened.nanos < duration.nanos {
        duration
    } else if lengthened.nanos > longest(duration, jitter_percent) {
        Duration { nanos: longest(duration, jitter_percent) as u64 }
    } else {
        lengthened
    }
}

/// Add jitter to a duration, which the draw has made `lengthened`
pub fn add_jitter(duration: Duration, jitter_percent: u8, lengthened: Duration) -> (r: Duration)
    ensures
        r == jittered_span(duration, jitter_percent, lengthened),
        duration.nanos <= r.nanos <= longest(duration, jitter_percent),
{
    proof {
        let (d, p) = (duration.nanos as int, jitter_percent as int);
        assert(0 <= d * (100 + p) <= 0xffff_ffff_ffff_ffff * 355) by (nonlinear_arith)
            requires
                0 <= d <= 0xffff_ffff_ffff_ffff,
                0 <= p <= 255,
        ;
        assert(d * 100 <= d * (100 + p)) by (nonlinear_arith)
            requires
                0 <= d,
                0 <= p,
        ;
        assert(d <= d * (100 + p) / 100);
    }
    let most: u128 = duration.nanos as u128 * (100 + jitter_percent as u128) / 100;
    if jitter_percent == 0 || lengthened.nanos < duration.nanos {
        duration
    } else if lengthened.nanos as u128 > most {
        Duration { nanos: most as u64 }
    } else {
        lengthened
    }
}

impl RotationPolicy {
    /// The time to the next rotation, where the draw has made it `jittered`.
    pub open spec fn interval(self, jittered: Duration) -> Duration {
        if self.randomize_rotation {
            jittered_span(self.rotation_interval, self.rotation_jitter_percent, jittered)
        } else {
            self.rotation_interval
        }
    }

    /// The time to the next rotation, where the draw has made it `jittered`.
    pub fn next_interval(&self, jittered: Duration) -> (r: Duration)
        ensures
            r == self.interval(jittered),
    {
        if self.randomize_rotation {
            add_jitter(self.rotation_interval, self.rotation_jitter_percent, jittered)
        } else {
            self.rotation_interval
        }
    }
}

/// Jitter never brings a rotation forward, and puts it off by no more than its
/// percentage of the interval: not at all where there is none.
pub proof fn law_jitter_is_bounded(
    circuit_id: CircuitId,
    policy: RotationPolicy,
    jittered: Duration,
    now: Instant,
)
    requires
        now.nanos + policy.interval(jittered).nanos <= u64::MAX,
    ensures
        ({
            let d = policy.rotation_interval;
            let p = policy.rotation_jitter_percent;
            let wait = RotationInfo::fresh(circuit_id, policy, jittered, now).rotate_at.nanos
                - now.nanos;
            &&& wait == policy.interval(jittered).nanos
            &&& d.nanos <= wait <= longest(d, p)
            &&& !policy.randomize_rotation || p == 0 ==> wait == d.nanos
        }),
{
    let (d, p) = (policy.rotation_interval.nanos as int, policy.rotation_jitter_percent as int);
    assert(d * 100 <= d * (100 + p)) by (nonlinear_arith)
        requires
            0 <= d,
            0 <= p,
    ;
    assert(d <= d * (100 + p) / 100);
}

/// Rotation event
#[derive(Debug, Clone)]
pub enum RotationEvent {
    /// Rotation scheduled
    RotationScheduled {
        /// The circuit.
        circuit_id: CircuitId,
        /// What triggered it.
        trigger: RotationTrigger,
        /// When it is to come.
        scheduled_at: Instant,
    },
    /// Rotation started
    RotationStarted {
        /// The circuit.
        circuit_id: CircuitId,
        /// What triggered it.
        trigger: RotationTrigger,
    },
    /// Rotation completed successfully
    RotationCompleted {
        /// The circuit that went.
        old_circuit_id: CircuitId,
        /// The circuit that came.
        new_circuit_id: CircuitId,
        /// What triggered it.
        trigger: RotationTrigger,
    },
    /// Rotation failed
    RotationFailed {
        /// The circuit.
        circuit_id: CircuitId,
        /// What triggered it.
        trigger: RotationTrigger,
        /// What went wrong.
        error: String,
    },
    /// Circuit retired
    CircuitRetired {
        /// The circuit.
        circuit_id: CircuitId,
        /// Why it was retired.
        reason: RetireReason,
    },
}

/// Circuit rotation information
#[derive(Debug, Clone, Copy, PartialEq, Eq, Structural)]
pub struct RotationInfo {
    /// Circuit ID
    pub circuit_id: CircuitId,
    /// When the circuit was created
    pub created_at: Instant,
    /// When to rotate next
    pub rotate_at: Instant,
    /// Rotation trigger that scheduled this
    pub scheduled_by: Option<RotationTrigger>,
    /// Number of rotations for this circuit slot
    pub rotation_count: u32,
    /// Whether rotation is in progress
    pub rotation_in_progress: bool,
}

impl RotationInfo {
    /// The record of a circuit that is new at `now`.
    pub open spec fn fresh(
        circuit_id: CircuitId,
        policy: RotationPolicy,
        jittered: Duration,
        now: Instant,
    ) -> RotationInfo {
        RotationInfo {
            circuit_id,
            created_at: now,
            rotate_at: Instant { nanos: (now.nanos + policy.interval(jittered).nanos) as u64 },
            scheduled_by: None,
            rotation_count: 0,
            rotation_in_progress: false,
        }
    }

    /// Whether rotation is due.
    pub open spec fn due(self, now: Instant) -> bool {
        now.nanos >= self.rotate_at.nanos && !self.rotation_in_progress
    }

    /// Create new rotation info
    pub fn new(
        circuit_id: CircuitId,
        policy: &RotationPolicy,
        jittered: Duration,
        now: Instant,
    ) -> (r: RotationInfo)
        requires
            now.nanos + policy.interval(jittered).nanos <= u64::MAX,
        ensures
            r == RotationInfo::fresh(circuit_id, *policy, jittered, now),
    {
        RotationInfo {
            circuit_id,
            created_at: now,
            rotate_at: now.after(policy.next_interval(jittered)),
            scheduled_by: None,
            rotation_count: 0,
            rotation_in_progress: false,
        }
    }

    /// Check if rotation is due
    pub fn is_rotation_due(&self, now: Instant) -> (r: bool)
        ensures
            r == self.due(now),
    {
        now.nanos >= self.rotate_at.nanos && !self.rotation_in_progress
    }

    /// Schedule next rotation
    pub fn schedule_next(&mut self, policy: &RotationPolicy, jittered: Duration, now: Instant)
        requires
            now.nanos + policy.interval(jittered).nanos <= u64::MAX,
            old(self).rotation_count < u32::MAX,
        ensures
            *final(self) == (RotationInfo {
                rotate_at: Instant { nanos: (now.nanos + policy.interval(jittered).nanos) as u64 },
                rotation_in_progress: false,
                rotation_count: (old(self).rotation_count + 1) as u32,
                ..*old(self)
            }),
    {
        self.rotate_at = now.after(policy.next_interval(jittered));
        self.rotation_in_progress = false;
        self.rotation_count = self.rotation_count + 1;
    }

    /// Get age of circuit
    pub fn age(&self, now: Instant) -> (r: Duration)
        ensures
            r.nanos == elapsed(now, self.created_at),
    {
        now.duration_since(self.created_at)
    }

    /// Get time until next rotation
    pub fn time_until_rotation(&self, now: Instant) -> (r: Duration)
        ensures
            r.nanos == elapsed(self.rotate_at, now),
    {
        self.rotate_at.duration_since(now)
    }
}

/// Circuit rotator manages scheduled and emergency rotations
pub struct CircuitRotator {
    /// Rotation policy
    pub policy: RotationPolicy,
    /// Rotation info for each circuit
    pub rotation_info: HashMap<CircuitId, RotationInfo>,
}

/// The record `info` with a rotation under way.
pub open spec fn under_way(info: RotationInfo, trigger: RotationTrigger) -> RotationInfo {
    RotationInfo { rotation_in_progress: true, scheduled_by: Some(trigger), ..info }
}

/// The record `info` with no rotation under way.
pub open spec fn at_rest(info: RotationInfo) -> RotationInfo {
    RotationInfo { rotation_in_progress: false, ..info }
}

/// The records with that of `id` changed to `info`, where there is one.
pub open spec fn with_info(
    m: Map<u64, RotationInfo>,
    id: CircuitId,
    info: RotationInfo,
) -> Map<u64, RotationInfo> {
    if m.dom().contains(id) {
        m.insert(id, info)
    } else {
        m
    }
}

/// What a rotation works on: the records of the rotator, the supply of circuits
/// and the events so far.
pub struct RotationState {
    /// The records, by circuit.
    pub info: Map<u64, RotationInfo>,
    /// The pool, the metrics, and the events of the pool.
    pub supply: Supply,
    /// The events.
    pub events: Seq<RotationEvent>,
}

/// Whether a rotation was begun and could not be completed for want of a
/// circuit.
pub open spec fn rotation_failed(
    config: HealthMonitorConfig,
    s0: RotationState,
    circuit_id: CircuitId,
    trigger: RotationTrigger,
    now: Instant,
    s1: RotationState,
) -> bool {
    &&& acquired(s0.supply, config, now, None, s1.supply)
    &&& s1.info == with_info(
        s0.info,
        circuit_id,
        at_rest(under_way(s0.info[circuit_id], trigger)),
    )
    &&& s1.events.len() == s0.events.len() + 2
    &&& s1.events.take(s0.events.len() as int) == s0.events
    &&& s1.events[s0.events.len() as int] == (RotationEvent::RotationStarted {
        circuit_id,
        trigger,
    })
    &&& s1.events.last() matches RotationEvent::RotationFailed {
        circuit_id: id,
        trigger: t,
        error,
    } && id == circuit_id && t == trigger && error@ == "Pool is empty"@
}

/// The records and the events once the circuit has been replaced by `new`.
pub open spec fn rotation_booked(
    policy: RotationPolicy,
    s0: RotationState,
    circuit_id: CircuitId,
    trigger: RotationTrigger,
    jittered: Duration,
    now: Instant,
    new: CircuitId,
    s1: RotationState,
) -> bool {
    &&& s1.info == s0.info.remove(circuit_id).insert(
        new,
        RotationInfo::fresh(new, policy, jittered, now),
    )
    &&& s1.events == s0.events.push(RotationEvent::RotationStarted { circuit_id, trigger }).push(
        RotationEvent::RotationCompleted {
            old_circuit_id: circuit_id,
            new_circuit_id: new,
            trigger,
        },
    )
}

/// Whether `s1` has come from `s0` by a rotation that gave `r`: nothing where
/// one was under way, and else another circuit in the place of this one.
pub open spec fn rotated(
    policy: RotationPolicy,
    config: HealthMonitorConfig,
    s0: RotationState,
    circuit_id: CircuitId,
    trigger: RotationTrigger,
    jittered: Duration,
    now: Instant,
    r: Result<CircuitId, RotationError>,
    s1: RotationState,
) -> bool {
    if s0.info.dom().contains(circuit_id) && s0.info[circuit_id].rotation_in_progress {
        r == Err::<CircuitId, RotationError>(RotationError::RotationInProgress) && s1 == s0
    } else {
        match r {
            Ok(new) => {
                &&& rotation_booked(policy, s0, circuit_id, trigger, jittered, now, new, s1)
                &&& exchanged(
                    s0.supply,
                    config,
                    now,
                    new,
                    circuit_id,
                    RetireReason::Age,
                    s1.supply,
                )
            },
            Err(e) => {
                &&& e matches RotationError::PoolError(m) && m@ == "Pool is empty"@
                &&& rotation_failed(config, s0, circuit_id, trigger, now, s1)
            },
        }
    }
}

/// Whether `s1` has come from `s0` by a rotation in the background that gave
/// `got`. It has no regard to one that is under way, and the new circuit is
/// registered with the health monitor afresh.
pub open spec fn rotated_in_background(
    policy: RotationPolicy,
    config: HealthMonitorConfig,
    s0: RotationState,
    circuit_id: CircuitId,
    jittered: Duration,
    now: Instant,
    got: Option<CircuitId>,
    s1: RotationState,
) -> bool {
    let trigger = RotationTrigger::TimeBased;
    match got {
        Some(new) => {
            &&& rotation_booked(policy, s0, circuit_id, trigger, jittered, now, new, s1)
            &&& s1.supply.metrics.dom().contains(new)
            &&& s1.supply.metrics[new]@ == MetricsView::fresh(new, now)
            &&& exists|s: Supply| #[trigger]
                exchanged(s0.supply, config, now, new, circuit_id, RetireReason::Age, s) && s.pool
                    == s1.supply.pool && s.events == s1.supply.events
                    && s1.supply.metrics.remove(new) == s.metrics.remove(new)
        },
        None => rotation_failed(config, s0, circuit_id, trigger, now, s1),
    }
}

/// How many numbers a rotation can use up where the queue is no longer than
/// `queue` and is to be no shorter than `few`.
pub open spec fn rotation_numbers(queue: int, few: int) -> int {
    (queue + 1) * (few + 1) + few
}

/// Whether every circuit of the pool can be used `n` more times.
pub open spec fn uses_left(p: PoolView, n: int) -> bool {
    forall|id: u64| #[trigger]
        p.circuits.dom().contains(id) ==> p.circuits[id].use_count + n <= u64::MAX
}

/// Whether the circuits `due` were rotated in turn, with what the builder and
/// the jitter gave: `states` holds the state before each and the last one.
pub open spec fn rotations<B: CircuitBuilder, F: Fn() -> Duration>(
    policy: RotationPolicy,
    config: HealthMonitorConfig,
    builder: &B,
    jitter: F,
    now: Instant,
    due: Seq<u64>,
    got: Seq<Option<CircuitId>>,
    states: Seq<RotationState>,
    first: RotationState,
    last: RotationState,
) -> bool {
    &&& got.len() == due.len()
    &&& states.len() == due.len() + 1
    &&& states.first() == first
    &&& states.last() == last
    &&& forall|k: int|
        0 <= k < due.len() ==> #[trigger] one_rotation(
            policy,
            config,
            builder,
            jitter,
            states[k],
            due[k],
            now,
            got[k],
            states[k + 1],
        )
}

/// Whether `s1` has come from `s0` by a rotation with an interval that the jitter
/// gave. The builder was told to close the circuit, where it was in the pool and
/// another has come for it, and the worn-out ones before that other.
pub open spec fn one_rotation<B: CircuitBuilder, F: Fn() -> Duration>(
    policy: RotationPolicy,
    config: HealthMonitorConfig,
    builder: &B,
    jitter: F,
    s0: RotationState,
    circuit_id: CircuitId,
    now: Instant,
    got: Option<CircuitId>,
    s1: RotationState,
) -> bool {
    &&& exists|jittered: Duration|
        call_ensures(jitter, (), jittered) && #[trigger] rotated_in_background(
            policy,
            config,
            s0,
            circuit_id,
            jittered,
            now,
            got,
            s1,
        )
    &&& got is Some && s0.supply.pool.circuits.dom().contains(circuit_id) ==> closed_by(
        builder,
        circuit_id,
    )
    &&& worn_are_closed(builder, s0.supply, config, now)
}

proof fn lemma_one_more_rotation<B: CircuitBuilder, F: Fn() -> Duration>(
    policy: RotationPolicy,
    config: HealthMonitorConfig,
    builder: &B,
    jitter: F,
    now: Instant,
    due: Seq<u64>,
    got: Seq<Option<CircuitId>>,
    states: Seq<RotationState>,
    first: RotationState,
    id: u64,
    one: Option<CircuitId>,
    s1: RotationState,
)
    requires
        rotations(policy, config, builder, jitter, now, due, got, states, first, states.last()),
        one_rotation(policy, config, builder, jitter, states.last(), id, now, one, s1),
    ensures
        rotations(
            policy,
            config,
            builder,
            jitter,
            now,
            due.push(id),
            got.push(one),
            states.push(s1),
            first,
            s1,
        ),
{
    let n = due.len() as int;
    let (due1, got1, states1) = (due.push(id), got.push(one), states.push(s1));
    assert(states1.first() == states.first() && states1.last() == s1);
    assert forall|k: int| 0 <= k < due1.len() implies #[trigger] one_rotation(
        policy,
        config,
        builder,
        jitter,
        states1[k],
        due1[k],
        now,
        got1[k],
        states1[k + 1],
    ) by {
        if k < n {
            assert(one_rotation(
                policy,
                config,
                builder,
                jitter,
                states[k],
                due[k],
                now,
                got[k],
                states[k + 1],
            ));
        }
    }
}

/// What has been settled and what is fresh stays so over a rotation, but for the
/// circuit that is rotated.
proof fn lemma_settled_rotated<B: CircuitBuilder>(
    policy: RotationPolicy,
    config: HealthMonitorConfig,
    builder: &B,
    first: u64,
    retired: Set<u64>,
    p0: CircuitPool,
    s0: RotationState,
    id: u64,
    jittered: Duration,
    now: Instant,
    got: Option<CircuitId>,
    s1: RotationState,
)
    requires
        p0.wf(),
        p0@ == s0.supply.pool,
        refills_last(p0, config, now),
        rotated_in_background(policy, config, s0, id, jittered, now, got, s1),
        fresh_since(first, s0.supply.pool, s0.supply.metrics, now),
        settled_but_for(builder, first, s0.supply.pool, retired),
        settled_but_for(builder, s0.supply.pool.next_id, s1.supply.pool, set![id]),
        retired.contains(id),
        got is Some && p0.circuits@.dom().contains(id) ==> closed_by(builder, id),
    ensures
        fresh_since(first, s1.supply.pool, s1.supply.metrics, now),
        settled_but_for(builder, first, s1.supply.pool, retired),
{
    let n = s0.supply.pool.next_id;
    match got {
        Some(new) => {
            let s = choose|s: Supply| #[trigger]
                exchanged(s0.supply, config, now, new, id, RetireReason::Age, s) && s.pool
                    == s1.supply.pool && s.events == s1.supply.events
                    && s1.supply.metrics.remove(new) == s.metrics.remove(new);
            let b = choose|b: Supply| #[trigger]
                acquired(s0.supply, config, now, Some(new), b) && retired_if_there(
                    b,
                    id,
                    RetireReason::Age,
                    s,
                    now,
                );
            lemma_settled_acquired(
                builder,
                first,
                n,
                s0.supply,
                config,
                now,
                Some(new),
                b,
                retired,
            );
            lemma_acquisition_keeps(
                s0.supply.pool,
                config,
                s0.supply.metrics,
                now,
                Some(new),
                b.pool,
                b.metrics,
            );
            lemma_fresh_acquired(first, s0.supply, config, now, Some(new), b);
            lemma_fresh_retired(first, b, id, RetireReason::Age, s, now);
            lemma_settled_retired(
                builder,
                first,
                n,
                b,
                id,
                RetireReason::Age,
                s,
                now,
                retired,
            );
            assert(retired.insert(id) =~= retired);
            assert forall|i: int| 0 <= i < s.pool.queue.len() && first
                <= #[trigger] s.pool.queue[i] implies s1.supply.metrics.dom().contains(
                s.pool.queue[i],
            ) ==> s1.supply.metrics[s.pool.queue[i]]@ == MetricsView::fresh(
                s.pool.queue[i],
                now,
            ) by {
                let x = s.pool.queue[i];
                if x != new && s1.supply.metrics.dom().contains(x) {
                    assert(s1.supply.metrics.remove(new).dom().contains(x));
                    assert(s.metrics.remove(new).dom().contains(x));
                    assert(s1.supply.metrics.remove(new)[x] == s.metrics.remove(new)[x]);
                }
            }
        },
        None => {
            lemma_settled_acquired(
                builder,
                first,
                n,
                s0.supply,
                config,
                now,
                None,
                s1.supply,
                retired,
            );
            lemma_fresh_acquired(first, s0.supply, config, now, None, s1.supply);
        },
    }
    assert forall|x: u64| first <= x < s1.supply.pool.next_id implies
        #[trigger] dealt_with(builder, x, s1.supply.pool) || (retired.contains(x)
        && built_and_closed(builder, x, s1.supply.pool)) by {
        if x >= n {
            assert(dealt_with(builder, x, s1.supply.pool) || set![id].contains(x));
        }
    }
}

/// A rotation uses no circuit more than once.
proof fn lemma_uses_left(
    policy: RotationPolicy,
    config: HealthMonitorConfig,
    s0: RotationState,
    id: u64,
    jittered: Duration,
    now: Instant,
    got: Option<CircuitId>,
    s1: RotationState,
    n: int,
)
    requires
        rotated_in_background(policy, config, s0, id, jittered, now, got, s1),
        uses_left(s0.supply.pool, n),
        1 <= n <= u64::MAX,
    ensures
        uses_left(s1.supply.pool, n - 1),
{
    match got {
        Some(new) => {
            let s = choose|s: Supply| #[trigger]
                exchanged(s0.supply, config, now, new, id, RetireReason::Age, s) && s.pool
                    == s1.supply.pool && s.events == s1.supply.events
                    && s1.supply.metrics.remove(new) == s.metrics.remove(new);
            super::supply::lemma_exchange_uses(
                s0.supply,
                config,
                now,
                new,
                id,
                RetireReason::Age,
                s,
                n,
            );
        },
        None => {
            super::supply::law_acquisitions_use_once(
                s0.supply.pool,
                config,
                s0.supply.metrics,
                now,
                None,
                s1.supply.pool,
                s1.supply.metrics,
                n,
            );
        },
    }
}

impl CircuitRotator {
    /// What the rotator works on, with the given pool, monitor and events.
    pub open spec fn state(
        self,
        pool: CircuitPool,
        monitor: CircuitHealthMonitor,
        pool_events: Seq<PoolEvent>,
        events: Seq<RotationEvent>,
    ) -> RotationState {
        RotationState {
            info: self.rotation_info@,
            supply: supply(pool, monitor, pool_events),
            events,
        }
    }

    /// Whether the circuit is due by time: it has lived long enough, is not
    /// being rotated, and either its time has come or its life is at an end.
    pub open spec fn due_by_time(self, id: CircuitId, now: Instant) -> bool {
        &&& self.rotation_info@.dom().contains(id)
        &&& !self.rotation_info@[id].rotation_in_progress
        &&& elapsed(now, self.rotation_info@[id].created_at)
            >= self.policy.min_circuit_lifetime.nanos
        &&& (self.policy.enable_time_rotation && self.rotation_info@[id].due(now)) || elapsed(
            now,
            self.rotation_info@[id].created_at,
        ) >= self.policy.max_circuit_lifetime.nanos
    }

    /// Whether the circuit's score is below the policy's.
    pub open spec fn ailing(self, monitor: CircuitHealthMonitor, id: CircuitId) -> bool {
        &&& self.policy.enable_health_rotation
        &&& monitor.metrics@.dom().contains(id)
        &&& monitor.metrics@[id].health_score < self.policy.health_score_threshold
    }

    /// Whether the circuit has transferred as many bytes as the policy allows.
    pub open spec fn heavy(self, monitor: CircuitHealthMonitor, id: CircuitId) -> bool {
        &&& self.policy.enable_usage_rotation
        &&& monitor.metrics@.dom().contains(id)
        &&& monitor.metrics@[id].bytes_transferred >= self.policy.bytes_threshold
    }

    /// Whether the circuit has served as many requests, successful or not, as the
    /// policy allows connections.
    pub open spec fn busy(self, monitor: CircuitHealthMonitor, id: CircuitId) -> bool {
        &&& self.policy.enable_connection_rotation
        &&& monitor.metrics@.dom().contains(id)
        &&& monitor.metrics@[id].successful_requests + monitor.metrics@[id].failed_requests
            >= self.policy.connection_threshold
    }

    /// Whether the circuit may be rotated: it is known, has lived long enough,
    /// and is not being rotated.
    pub open spec fn rotatable(self, id: CircuitId, now: Instant) -> bool {
        &&& self.rotation_info@.dom().contains(id)
        &&& !self.rotation_info@[id].rotation_in_progress
        &&& elapsed(now, self.rotation_info@[id].created_at)
            >= self.policy.min_circuit_lifetime.nanos
    }

    /// Why the use of the circuit calls for its rotation, if it does: the bytes
    /// come before the connections.
    pub open spec fn worn_by(self, monitor: CircuitHealthMonitor, id: CircuitId) -> Option<
        RotationTrigger,
    > {
        if self.heavy(monitor, id) {
            Some(RotationTrigger::UsageBased)
        } else if self.busy(monitor, id) {
            Some(RotationTrigger::ConnectionBased)
        } else {
            None
        }
    }

    /// Why the circuit is to be rotated, if it is. A young circuit, or one that
    /// is being rotated, is left alone; ill health comes before time, and time
    /// before use.
    pub open spec fn verdict(
        self,
        monitor: CircuitHealthMonitor,
        id: CircuitId,
        now: Instant,
    ) -> Option<RotationTrigger> {
        if !self.rotatable(id, now) {
            None
        } else if self.ailing(monitor, id) {
            Some(RotationTrigger::HealthBased)
        } else if self.due_by_time(id, now) {
            Some(RotationTrigger::TimeBased)
        } else {
            self.worn_by(monitor, id)
        }
    }

    /// Why the circuit is listed for rotation, if it is: as for the verdict, but
    /// time comes before ill health.
    pub open spec fn listing(
        self,
        monitor: CircuitHealthMonitor,
        id: CircuitId,
        now: Instant,
    ) -> Option<RotationTrigger> {
        if !self.rotatable(id, now) {
            None
        } else if self.due_by_time(id, now) {
            Some(RotationTrigger::TimeBased)
        } else if self.ailing(monitor, id) {
            Some(RotationTrigger::HealthBased)
        } else {
            self.worn_by(monitor, id)
        }
    }

    /// Create a new circuit rotator
    pub fn new(policy: RotationPolicy) -> (r: CircuitRotator)
        ensures
            r.policy == policy,
            r.rotation_info@ == Map::<u64, RotationInfo>::empty(),
    {
        CircuitRotator { policy, rotation_info: HashMap::new() }
    }

    /// Register a new circuit for rotation management
    pub fn register_circuit(&mut self, circuit_id: CircuitId, jittered: Duration, now: Instant)
        requires
            now.nanos + old(self).policy.interval(jittered).nanos <= u64::MAX,
        ensures
            final(self).policy == old(self).policy,
            final(self).rotation_info@ == old(self).rotation_info@.insert(
                circuit_id,
                RotationInfo::fresh(circuit_id, old(self).policy, jittered, now),
            ),
    {
        let info = RotationInfo::new(circuit_id, &self.policy, jittered, now);
        self.rotation_info.insert(circuit_id, info);
    }

    /// Unregister a circuit from rotation management
    pub fn unregister_circuit(&mut self, circuit_id: CircuitId)
        ensures
            final(self).policy == old(self).policy,
            final(self).rotation_info@ == old(self).rotation_info@.remove(circuit_id),
    {
        self.rotation_info.remove(&circuit_id);
    }

    /// Check if a circuit should be rotated
    pub fn should_rotate(
        &self,
        monitor: &CircuitHealthMonitor,
        circuit_id: CircuitId,
        now: Instant,
    ) -> (r: Option<RotationTrigger>)
        ensures
            r == self.verdict(*monitor, circuit_id, now),
    {
        let info = match self.rotation_info.get(&circuit_id) {
            Some(info) => info,
            None => {
                return None;
            },
        };
        if info.age(now).nanos < self.policy.min_circuit_lifetime.nanos {
            return None;
        }
        if info.rotation_in_progress {
            return None;
        }
        if self.is_ailing(monitor, circuit_id) {
            return Some(RotationTrigger::HealthBased);
        }
        if self.policy.enable_time_rotation && info.is_rotation_due(now) {
            return Some(RotationTrigger::TimeBased);
        }
        if info.age(now).nanos >= self.policy.max_circuit_lifetime.nanos {
            return Some(RotationTrigger::TimeBased);
        }
        self.wear(monitor, circuit_id)
    }

    fn is_ailing(&self, monitor: &CircuitHealthMonitor, id: CircuitId) -> (r: bool)
        ensures
            r == self.ailing(*monitor, id),
    {
        self.policy.enable_health_rotation && match monitor.get_health_score(id) {
            Some(score) => score < self.policy.health_score_threshold,
            None => false,
        }
    }

    fn wear(&self, monitor: &CircuitHealthMonitor, id: CircuitId) -> (r: Option<RotationTrigger>)
        ensures
            r == self.worn_by(*monitor, id),
    {
        match monitor.metrics.get(&id) {
            Some(m) => {
                if self.policy.enable_usage_rotation && m.bytes_transferred
                    >= self.policy.bytes_threshold {
                    return Some(RotationTrigger::UsageBased);
                }
                let requests: u128 = m.successful_requests as u128 + m.failed_requests as u128;
                if self.policy.enable_connection_rotation && requests
                    >= self.policy.connection_threshold as u128 {
                    return Some(RotationTrigger::ConnectionBased);
                }
                None
            },
            None => None,
        }
    }

    fn set_info(&mut self, circuit_id: CircuitId, info: RotationInfo)
        ensures
            final(self).policy == old(self).policy,
            final(self).rotation_info@ == old(self).rotation_info@.insert(circuit_id, info),
    {
        self.rotation_info.insert(circuit_id, info);
    }

    /// Starts the rotation of a circuit. The event to send is its start; then a
    /// new circuit is to be acquired.
    pub fn begin_rotation(&mut self, circuit_id: CircuitId, trigger: RotationTrigger) -> (r: Result<
        RotationEvent,
        RotationError,
    >)
        ensures
            final(self).policy == old(self).policy,
            if old(self).rotation_info@.dom().contains(circuit_id)
                && old(self).rotation_info@[circuit_id].rotation_in_progress {
                &&& r == Err::<RotationEvent, RotationError>(RotationError::RotationInProgress)
                &&& final(self).rotation_info@ == old(self).rotation_info@
            } else {
                &&& r == Ok::<RotationEvent, RotationError>(
                    RotationEvent::RotationStarted { circuit_id, trigger },
                )
                &&& final(self).rotation_info@ == with_info(
                    old(self).rotation_info@,
                    circuit_id,
                    under_way(old(self).rotation_info@[circuit_id], trigger),
                )
            },
    {
        let known = match self.rotation_info.get(&circuit_id) {
            Some(info) => {
                if info.rotation_in_progress {
                    return Err(RotationError::RotationInProgress);
                }
                Some(*info)
            },
            None => None,
        };
        if let Some(mut info) = known {
            info.rotation_in_progress = true;
            info.scheduled_by = Some(trigger);
            self.set_info(circuit_id, info);
        }
        Ok(RotationEvent::RotationStarted { circuit_id, trigger })
    }

    /// Starts the rotation of a circuit in the background, whether or not
    /// another is under way.
    pub fn begin_background_rotation(&mut self, circuit_id: CircuitId, trigger: RotationTrigger) -> (r:
        RotationEvent)
        ensures
            r == (RotationEvent::RotationStarted { circuit_id, trigger }),
            final(self).policy == old(self).policy,
            final(self).rotation_info@ == with_info(
                old(self).rotation_info@,
                circuit_id,
                under_way(old(self).rotation_info@[circuit_id], trigger),
            ),
    {
        let known = match self.rotation_info.get(&circuit_id) {
            Some(info) => Some(*info),
            None => None,
        };
        if let Some(mut info) = known {
            info.rotation_in_progress = true;
            info.scheduled_by = Some(trigger);
            self.set_info(circuit_id, info);
        }
        RotationEvent::RotationStarted { circuit_id, trigger }
    }

    /// Ends a rotation for which no circuit could be acquired, with the given
    /// error. The event to send is the failure.
    pub fn fail_rotation(
        &mut self,
        circuit_id: CircuitId,
        trigger: RotationTrigger,
        error: String,
    ) -> (r: (RotationError, RotationEvent))
        ensures
            r.0 == RotationError::PoolError(error),
            r.1 == (RotationEvent::RotationFailed { circuit_id, trigger, error }),
            final(self).policy == old(self).policy,
            final(self).rotation_info@ == with_info(
                old(self).rotation_info@,
                circuit_id,
                at_rest(old(self).rotation_info@[circuit_id]),
            ),
    {
        let known = match self.rotation_info.get(&circuit_id) {
            Some(info) => Some(*info),
            None => None,
        };
        if let Some(mut info) = known {
            info.rotation_in_progress = false;
            self.set_info(circuit_id, info);
        }
        let copy = error.clone();
        (RotationError::PoolError(copy), RotationEvent::RotationFailed { circuit_id, trigger, error })
    }

    /// Ends a rotation whose old circuit has been retired. The event to send is
    /// the completion.
    pub fn complete_rotation(
        &mut self,
        circuit_id: CircuitId,
        new_circuit_id: CircuitId,
        trigger: RotationTrigger,
        jittered: Duration,
        now: Instant,
    ) -> (r: RotationEvent)
        requires
            now.nanos + old(self).policy.interval(jittered).nanos <= u64::MAX,
        ensures
            r == (RotationEvent::RotationCompleted {
                old_circuit_id: circuit_id,
                new_circuit_id,
                trigger,
            }),
            final(self).policy == old(self).policy,
            final(self).rotation_info@ == old(self).rotation_info@.remove(circuit_id).insert(
                new_circuit_id,
                RotationInfo::fresh(new_circuit_id, old(self).policy, jittered, now),
            ),
    {
        self.unregister_circuit(circuit_id);
        self.register_circuit(new_circuit_id, jittered, now);
        RotationEvent::RotationCompleted { old_circuit_id: circuit_id, new_circuit_id, trigger }
    }

    /// Perform rotation for a circuit: acquire another, retire this one
    pub fn rotate_circuit<B: CircuitBuilder>(
        &mut self,
        pool: &mut CircuitPool,
        monitor: &mut CircuitHealthMonitor,
        builder: &B,
        circuit_id: CircuitId,
        trigger: RotationTrigger,
        jittered: Duration,
        now: Instant,
        pool_events: &mut Vec<PoolEvent>,
        events: &mut Vec<RotationEvent>,
    ) -> (r: Result<CircuitId, RotationError>)
        requires
            old(pool).wf(),
            old(monitor).wf(),
            old(pool).usable_count(),
            refills_last(*old(pool), old(monitor).config, now),
            can_number(
                *old(pool),
                old(pool).acquisition_numbers() + old(pool).config.min_pool_size,
            ),
            now.nanos + old(self).policy.interval(jittered).nanos <= u64::MAX,
        ensures
            final(pool).wf(),
            final(monitor).wf(),
            final(self).policy == old(self).policy,
            final(monitor).config == old(monitor).config,
            settled_but_for(builder, old(pool).next_id, final(pool)@, set![circuit_id]),
            follows(old(pool_events)@, final(pool_events)@),
            failures_explained(builder, old(pool_events)@, final(pool_events)@),
            circuit_id < old(pool).next_id ==> settled(builder, old(pool).next_id, final(pool)@),
            r is Ok && old(pool).circuits@.dom().contains(circuit_id) ==> closed_by(
                builder,
                circuit_id,
            ),
            r == Err::<CircuitId, RotationError>(RotationError::RotationInProgress)
                || worn_are_closed(
                builder,
                supply(*old(pool), *old(monitor), old(pool_events)@),
                old(monitor).config,
                now,
            ),
            rotated(
                old(self).policy,
                old(monitor).config,
                old(self).state(
                    *old(pool),
                    *old(monitor),
                    old(pool_events)@,
                    old(events)@,
                ),
                circuit_id,
                trigger,
                jittered,
                now,
                r,
                final(self).state(
                    *final(pool),
                    *final(monitor),
                    final(pool_events)@,
                    final(events)@,
                ),
            ),
    {
        assert(pool_events@.take(pool_events@.len() as int) =~= pool_events@);
        match self.begin_rotation(circuit_id, trigger) {
            Err(e) => {
                return Err(e);
            },
            Ok(event) => {
                events.push(event);
            },
        }
        let new_circuit_id = match pool.acquire_circuit(monitor, builder, now, pool_events) {
            Ok(id) => id,
            Err(e) => {
                let (error, event) = self.fail_rotation(circuit_id, trigger, e.to_string());
                events.push(event);
                proof {
                    assert(self.rotation_info@ =~= with_info(
                        old(self).rotation_info@,
                        circuit_id,
                        at_rest(under_way(old(self).rotation_info@[circuit_id], trigger)),
                    ));
                    assert(events@.take(old(events)@.len() as int) =~= old(events)@);
                }
                return Err(error);
            },
        };
        let ghost between = supply(*pool, *monitor, pool_events@);
        assert(acquired(
            supply(*old(pool), *old(monitor), old(pool_events)@),
            old(monitor).config,
            now,
            Some(new_circuit_id),
            between,
        ));
        proof {
            lemma_acquisition_keeps(
                old(pool)@,
                old(monitor).config,
                old(monitor).metrics@,
                now,
                Some(new_circuit_id),
                between.pool,
                between.metrics,
            );
        }
        let _ = pool.retire_circuit(
            monitor,
            builder,
            circuit_id,
            RetireReason::Age,
            now,
            pool_events,
        );
        proof {
            lemma_explained_on(builder, old(pool_events)@, between.events, pool_events@);
            lemma_follows_on(old(pool_events)@, between.events, pool_events@);
            lemma_settled_retired(
                builder,
                old(pool).next_id,
                between.pool.next_id,
                between,
                circuit_id,
                RetireReason::Age,
                supply(*pool, *monitor, pool_events@),
                now,
                Set::empty(),
            );
        }
        let event = self.complete_rotation(circuit_id, new_circuit_id, trigger, jittered, now);
        events.push(event);
        assert(self.rotation_info@ =~= old(self).rotation_info@.remove(circuit_id).insert(
            new_circuit_id,
            RotationInfo::fresh(new_circuit_id, old(self).policy, jittered, now),
        ));
        Ok(new_circuit_id)
    }

    /// Trigger emergency rotation: the circuit counts as failed once more, then
    /// it is rotated
    pub fn emergency_rotate<B: CircuitBuilder>(
        &mut self,
        pool: &mut CircuitPool,
        monitor: &mut CircuitHealthMonitor,
        builder: &B,
        circuit_id: CircuitId,
        jittered: Duration,
        now: Instant,
        pool_events: &mut Vec<PoolEvent>,
        events: &mut Vec<RotationEvent>,
    ) -> (r: Result<CircuitId, RotationError>)
        requires
            old(pool).wf(),
            old(monitor).wf(),
            old(pool).usable_count(),
            old(monitor).metrics_or_fresh(circuit_id, now).has_room_for_failure(),
            refills_last(*old(pool), old(monitor).config, now),
            can_number(
                *old(pool),
                old(pool).acquisition_numbers() + old(pool).config.min_pool_size,
            ),
            now.nanos + old(self).policy.interval(jittered).nanos <= u64::MAX,
        ensures
            final(pool).wf(),
            final(monitor).wf(),
            final(self).policy == old(self).policy,
            final(monitor).config == old(monitor).config,
            settled_but_for(builder, old(pool).next_id, final(pool)@, set![circuit_id]),
            follows(old(pool_events)@, final(pool_events)@),
            failures_explained(builder, old(pool_events)@, final(pool_events)@),
            circuit_id < old(pool).next_id ==> settled(builder, old(pool).next_id, final(pool)@),
            r is Ok && old(pool).circuits@.dom().contains(circuit_id) ==> closed_by(
                builder,
                circuit_id,
            ),
            exists|failed: CircuitHealthMonitor| #[trigger]
                old(monitor).changed_only(
                    circuit_id,
                    old(monitor).metrics_or_fresh(circuit_id, now).after_failure(now),
                    failed,
                ) && (r == Err::<CircuitId, RotationError>(RotationError::RotationInProgress)
                    || worn_are_closed(
                    builder,
                    supply(*old(pool), failed, old(pool_events)@),
                    old(monitor).config,
                    now,
                )) && rotated(
                    old(self).policy,
                    old(monitor).config,
                    old(self).state(*old(pool), failed, old(pool_events)@, old(events)@),
                    circuit_id,
                    RotationTrigger::Emergency,
                    jittered,
                    now,
                    r,
                    final(self).state(
                    *final(pool),
                    *final(monitor),
                    final(pool_events)@,
                    final(events)@,
                ),
                ),
    {
        monitor.record_failure(circuit_id, FailureType::InternalError, now);
        self.rotate_circuit(
            pool,
            monitor,
            builder,
            circuit_id,
            RotationTrigger::Emergency,
            jittered,
            now,
            pool_events,
            events,
        )
    }

    /// Rotates one circuit that is due, as the background task does: without
    /// regard to another rotation of it, and registering the new circuit with
    /// the health monitor afresh. Returns the new circuit, if one was acquired.
    #[verifier::rlimit(30)]
    pub fn rotate_in_background<B: CircuitBuilder>(
        &mut self,
        pool: &mut CircuitPool,
        monitor: &mut CircuitHealthMonitor,
        builder: &B,
        circuit_id: CircuitId,
        jittered: Duration,
        now: Instant,
        pool_events: &mut Vec<PoolEvent>,
        events: &mut Vec<RotationEvent>,
    ) -> (r: Option<CircuitId>)
        requires
            old(pool).wf(),
            old(monitor).wf(),
            old(pool).usable_count(),
            refills_last(*old(pool), old(monitor).config, now),
            can_number(
                *old(pool),
                old(pool).acquisition_numbers() + old(pool).config.min_pool_size,
            ),
            now.nanos + old(self).policy.interval(jittered).nanos <= u64::MAX,
        ensures
            final(pool).wf(),
            final(monitor).wf(),
            final(self).policy == old(self).policy,
            final(monitor).config == old(monitor).config,
            final(pool).config == old(pool).config,
            old(pool).next_id <= final(pool).next_id <= old(pool).next_id
                + old(pool).acquisition_numbers() + old(pool).config.min_pool_size,
            final(pool)@.queue.len() <= at_most(*old(pool)),
            settled_but_for(builder, old(pool).next_id, final(pool)@, set![circuit_id]),
            follows(old(pool_events)@, final(pool_events)@),
            failures_explained(builder, old(pool_events)@, final(pool_events)@),
            circuit_id < old(pool).next_id ==> settled(builder, old(pool).next_id, final(pool)@),
            r is Some && old(pool).circuits@.dom().contains(circuit_id) ==> closed_by(
                builder,
                circuit_id,
            ),
            worn_are_closed(
                builder,
                supply(*old(pool), *old(monitor), old(pool_events)@),
                old(monitor).config,
                now,
            ),
            rotated_in_background(
                old(self).policy,
                old(monitor).config,
                old(self).state(
                    *old(pool),
                    *old(monitor),
                    old(pool_events)@,
                    old(events)@,
                ),
                circuit_id,
                jittered,
                now,
                r,
                final(self).state(
                    *final(pool),
                    *final(monitor),
                    final(pool_events)@,
                    final(events)@,
                ),
            ),
    {
        let trigger = RotationTrigger::TimeBased;
        let started = self.begin_background_rotation(circuit_id, trigger);
        events.push(started);
        match pool.acquire_circuit(monitor, builder, now, pool_events) {
            Ok(new_circuit_id) => {
                let ghost between = supply(*pool, *monitor, pool_events@);
                assert(acquired(
                    supply(*old(pool), *old(monitor), old(pool_events)@),
                    old(monitor).config,
                    now,
                    Some(new_circuit_id),
                    between,
                ));
                proof {
                    lemma_acquisition_keeps(
                        old(pool)@,
                        old(monitor).config,
                        old(monitor).metrics@,
                        now,
                        Some(new_circuit_id),
                        between.pool,
                        between.metrics,
                    );
                }
                let _ = pool.retire_circuit(
                    monitor,
                    builder,
                    circuit_id,
                    RetireReason::Age,
                    now,
                    pool_events,
                );
                let ghost s = supply(*pool, *monitor, pool_events@);
                proof {
                    lemma_explained_on(builder, old(pool_events)@, between.events, pool_events@);
                    lemma_follows_on(old(pool_events)@, between.events, pool_events@);
                    lemma_settled_retired(
                        builder,
                        old(pool).next_id,
                        between.pool.next_id,
                        between,
                        circuit_id,
                        RetireReason::Age,
                        s,
                        now,
                        Set::empty(),
                    );
                }
                let event = self.complete_rotation(
                    circuit_id,
                    new_circuit_id,
                    trigger,
                    jittered,
                    now,
                );
                monitor.register_circuit(new_circuit_id, now);
                events.push(event);
                assert(self.rotation_info@ =~= old(self).rotation_info@.remove(circuit_id).insert(
                    new_circuit_id,
                    RotationInfo::fresh(new_circuit_id, old(self).policy, jittered, now),
                ));
                proof {
                    let s0 = old(self).state(
                    *old(pool),
                    *old(monitor),
                    old(pool_events)@,
                    old(events)@,
                );
                    let s1 = self.state(*pool, *monitor, pool_events@, events@);
                    assert(exchanged(
                        s0.supply,
                        old(monitor).config,
                        now,
                        new_circuit_id,
                        circuit_id,
                        RetireReason::Age,
                        s,
                    ));
                    assert(rotated_in_background(
                        self.policy,
                        old(monitor).config,
                        s0,
                        circuit_id,
                        jittered,
                        now,
                        Some(new_circuit_id),
                        s1,
                    ));
                }
                Some(new_circuit_id)
            },
            Err(e) => {
                let (_, event) = self.fail_rotation(circuit_id, trigger, e.to_string());
                events.push(event);
                proof {
                    assert(self.rotation_info@ =~= with_info(
                        old(self).rotation_info@,
                        circuit_id,
                        at_rest(under_way(old(self).rotation_info@[circuit_id], trigger)),
                    ));
                    assert(events@.take(old(events)@.len() as int) =~= old(events)@);
                }
                None
            },
        }
    }

    /// One pass of the background task: rotates the circuits that are due by
    /// time, one after another. Returns what each rotation gave; `jitter` gives
    /// each its jittered interval.
    #[verifier::rlimit(30)]
    pub fn run_rotations<B: CircuitBuilder, F: Fn() -> Duration>(
        &mut self,
        pool: &mut CircuitPool,
        monitor: &mut CircuitHealthMonitor,
        builder: &B,
        jitter: F,
        now: Instant,
        pool_events: &mut Vec<PoolEvent>,
        events: &mut Vec<RotationEvent>,
    ) -> (r: Vec<Option<CircuitId>>)
        requires
            old(pool).wf(),
            old(monitor).wf(),
            refills_last(*old(pool), old(monitor).config, now),
            uses_left(old(pool)@, old(self).rotation_info@.len() as int),
            can_number(
                *old(pool),
                old(self).rotation_info@.len() * rotation_numbers(
                    at_most(*old(pool)),
                    old(pool).config.min_pool_size as int,
                ),
            ),
            call_requires(jitter, ()),
            forall|d: Duration| #[trigger]
                call_ensures(jitter, (), d) ==> now.nanos + old(self).policy.interval(d).nanos
                    <= u64::MAX,
        ensures
            final(pool).wf(),
            final(monitor).wf(),
            final(self).policy == old(self).policy,
            final(monitor).config == old(monitor).config,
            follows(old(pool_events)@, final(pool_events)@),
            failures_explained(builder, old(pool_events)@, final(pool_events)@),
            (forall|id: u64| #[trigger]
                old(self).due_by_time(id, now) ==> id < old(pool).next_id) ==> settled(
                builder,
                old(pool).next_id,
                final(pool)@,
            ),
            exists|due: Seq<u64>, states: Seq<RotationState>| #[trigger]
                rotations(
                    old(self).policy,
                    old(monitor).config,
                    builder,
                    jitter,
                    now,
                    due,
                    r@,
                    states,
                    old(self).state(*old(pool), *old(monitor), old(pool_events)@, old(events)@),
                    final(self).state(
                        *final(pool),
                        *final(monitor),
                        final(pool_events)@,
                        final(events)@,
                    ),
                ) && due.no_duplicates() && (forall|id: u64| #[trigger]
                    due.contains(id) <==> old(self).due_by_time(id, now)) && settled_but_for(
                    builder,
                    old(pool).next_id,
                    final(pool)@,
                    due.to_set(),
                ),
    {
        let due = self.circuits_due(now);
        let known: usize = self.rotation_info.len();
        let mut r: Vec<Option<u64>> = Vec::new();
        let ghost first = self.state(*pool, *monitor, pool_events@, events@);
        let ghost mut states: Seq<RotationState> = seq![first];
        let ghost all = self.rotation_info@.len() as int;
        let ghost long = at_most(*pool);
        let ghost few = pool.config.min_pool_size as int;
        let ghost step = rotation_numbers(long, few);
        proof {
            due@.unique_seq_to_set();
            assert(due@.to_set().subset_of(self.rotation_info@.dom())) by {
                assert forall|id: u64| due@.to_set().contains(id) implies
                    self.rotation_info@.dom().contains(id) by {
                    assert(due@.contains(id));
                }
            }
            vstd::set_lib::lemma_len_subset(due@.to_set(), self.rotation_info@.dom());
            assert(due@.len() <= all);
            assert(0 <= step) by (nonlinear_arith)
                requires
                    step == (long + 1) * (few + 1) + few,
                    long >= 1,
                    few >= 0,
            ;
            assert(0 * step == 0) by (nonlinear_arith);
        }
        let mut i: usize = 0;
        let ghost start = pool.next_id;
        assert(fresh_since(start, pool@, monitor.metrics@, now)) by {
            assert forall|k: int| 0 <= k < pool@.queue.len() implies #[trigger] pool@.queue[k]
                < start by {
                assert(pool.available_queue@[k] < pool.next_id);
            }
        }
        assert(pool_events@.take(pool_events@.len() as int) =~= pool_events@);
        while i < due.len()
            invariant
                start == old(pool).next_id,
                fresh_since(start, pool@, monitor.metrics@, now),
                settled_but_for(builder, start, pool@, due@.to_set()),
                follows(old(pool_events)@, pool_events@),
                failures_explained(builder, old(pool_events)@, pool_events@),
                pool.wf(),
                monitor.wf(),
                self.policy == old(self).policy,
                monitor.config == old(monitor).config,
                pool.config == old(pool).config,
                few == pool.config.min_pool_size,
                long == at_most(*old(pool)),
                step == rotation_numbers(long, few),
                step >= 0,
                all == old(self).rotation_info@.len(),
                all == known,
                due@.len() <= all,
                i <= due@.len(),
                refills_last(*pool, monitor.config, now),
                uses_left(pool@, all - i),
                old(pool).next_id <= pool.next_id <= old(pool).next_id + i * step,
                old(pool).next_id + all * step <= u64::MAX,
                pool@.queue.len() <= long,
                call_requires(jitter, ()),
                forall|d: Duration| #[trigger]
                    call_ensures(jitter, (), d) ==> now.nanos + self.policy.interval(d).nanos
                        <= u64::MAX,
                states.last() == self.state(*pool, *monitor, pool_events@, events@),
                rotations(
                    self.policy,
                    monitor.config,
                    builder,
                    jitter,
                    now,
                    due@.take(i as int),
                    r@,
                    states,
                    first,
                    states.last(),
                ),
            decreases due@.len() - i,
        {
            proof {
                assert(i * step + step == (i + 1) * step) by (nonlinear_arith);
                assert((i + 1) * step <= all * step) by (nonlinear_arith)
                    requires
                        i + 1 <= all,
                        step >= 0,
                ;
                let q = pool@.queue.len() as int;
                assert((q + 1) * (few + 1) <= (long + 1) * (few + 1)) by (nonlinear_arith)
                    requires
                        q <= long,
                        few >= 0,
                ;
            }
            let jittered = jitter();
            let ghost before = states;
            let ghost s0 = states.last();
            let id: u64 = due[i];
            let ghost before_pool = *pool;
            let ghost said = pool_events@;
            let got = self.rotate_in_background(
                pool,
                monitor,
                builder,
                id,
                jittered,
                now,
                pool_events,
                events,
            );
            let ghost given = r@;
            r.push(got);
            proof {
                let s1 = self.state(*pool, *monitor, pool_events@, events@);
                assert(rotated_in_background(
                    self.policy,
                    monitor.config,
                    s0,
                    id,
                    jittered,
                    now,
                    got,
                    s1,
                ));
                lemma_uses_left(
                    self.policy,
                    monitor.config,
                    s0,
                    id,
                    jittered,
                    now,
                    got,
                    s1,
                    all - i,
                );
                lemma_explained_on(builder, old(pool_events)@, said, pool_events@);
                lemma_follows_on(old(pool_events)@, said, pool_events@);
                assert(due@.to_set().contains(id)) by {
                    assert(due@[i as int] == id);
                }
                lemma_settled_rotated(
                    self.policy,
                    monitor.config,
                    builder,
                    start,
                    due@.to_set(),
                    before_pool,
                    s0,
                    id,
                    jittered,
                    now,
                    got,
                    s1,
                );
                states = states.push(s1);
                lemma_one_more_rotation(
                    self.policy,
                    monitor.config,
                    builder,
                    jitter,
                    now,
                    due@.take(i as int),
                    given,
                    before,
                    first,
                    id,
                    got,
                    s1,
                );
                assert(due@.take(i as int).push(id) =~= due@.take(i + 1));
            }
            i = i + 1;
        }
        proof {
            assert(due@.take(i as int) =~= due@);
            if forall|id: u64| #[trigger]
                old(self).due_by_time(id, now) ==> id < old(pool).next_id {
                assert forall|x: u64| start <= x < pool.next_id implies
                    #[trigger] dealt_with(builder, x, pool@) by {
                    if due@.to_set().contains(x) {
                        assert(due@.contains(x));
                        assert(old(self).due_by_time(x, now));
                    }
                }
            }
        }
        r
    }

    /// Get rotation info for a circuit
    pub fn get_rotation_info(&self, circuit_id: CircuitId) -> (r: Option<RotationInfo>)
        ensures
            match r {
                Some(info) => self.rotation_info@.dom().contains(circuit_id) && info
                    == self.rotation_info@[circuit_id],
                None => !self.rotation_info@.dom().contains(circuit_id),
            },
    {
        match self.rotation_info.get(&circuit_id) {
            Some(info) => Some(*info),
            None => None,
        }
    }

    /// Whether one circuit is due by time.
    fn is_due_by_time(&self, info: &RotationInfo, now: Instant) -> (r: bool)
        ensures
            r == (!info.rotation_in_progress && elapsed(now, info.created_at)
                >= self.policy.min_circuit_lifetime.nanos && ((self.policy.enable_time_rotation
                && info.due(now)) || elapsed(now, info.created_at)
                >= self.policy.max_circuit_lifetime.nanos)),
    {
        if info.rotation_in_progress {
            return false;
        }
        if info.age(now).nanos < self.policy.min_circuit_lifetime.nanos {
            return false;
        }
        (self.policy.enable_time_rotation && info.is_rotation_due(now)) || info.age(now).nanos
            >= self.policy.max_circuit_lifetime.nanos
    }

    /// The circuits that are due by time, each once: those that the background
    /// task rotates
    pub fn circuits_due(&self, now: Instant) -> (r: Vec<CircuitId>)
        ensures
            r@.no_duplicates(),
            forall|id: u64| #[trigger] r@.contains(id) <==> self.due_by_time(id, now),
    {
        let ks = maps::keys(&self.rotation_info);
        let mut r: Vec<u64> = Vec::new();
        let mut i: usize = 0;
        proof {
            maps::lemma_seen_ends(ks@);
        }
        while i < ks.len()
            invariant
                i <= ks@.len(),
                ks@.no_duplicates(),
                ks@.to_set() == self.rotation_info@.dom(),
                r@.no_duplicates(),
                forall|id: u64| #[trigger]
                    r@.contains(id) <==> seen(ks@, i as int).contains(id) && self.due_by_time(
                        id,
                        now,
                    ),
            decreases ks@.len() - i,
        {
            proof {
                maps::lemma_seen_next(ks@, i as int);
            }
            let id: u64 = ks[i];
            match self.rotation_info.get(&id) {
                Some(info) => {
                    if self.is_due_by_time(info, now) {
                        let ghost before = r@;
                        r.push(id);
                        proof {
                            maps::lemma_push_contains(before, id);
                        }
                    }
                },
                None => {},
            }
            i = i + 1;
        }
        proof {
            maps::lemma_seen_ends(ks@);
        }
        r
    }

    /// Get all circuits needing rotation: those due by time, then the others
    pub fn get_circuits_needing_rotation(&self, monitor: &CircuitHealthMonitor, now: Instant) -> (r:
        Vec<(CircuitId, RotationTrigger)>)
        ensures
            forall|i: int, j: int|
                0 <= i < j < r@.len() ==> (#[trigger] r@[i]).0 != (#[trigger] r@[j]).0,
            forall|id: u64, t: RotationTrigger| #[trigger]
                r@.contains((id, t)) <==> self.listing(*monitor, id, now) == Some(t),
            forall|i: int, j: int|
                0 <= i < j < r@.len() && (#[trigger] r@[j]).1 == RotationTrigger::TimeBased ==> (
                #[trigger] r@[i]).1 == RotationTrigger::TimeBased,
    {
        let due = self.circuits_due(now);
        let mut r: Vec<(u64, RotationTrigger)> = Vec::new();
        let mut i: usize = 0;
        while i < due.len()
            invariant
                i <= due@.len(),
                due@.no_duplicates(),
                r@.len() == i,
                forall|k: int|
                    0 <= k < i ==> #[trigger] r@[k] == (due@[k], RotationTrigger::TimeBased),
            decreases due@.len() - i,
        {
            r.push((due[i], RotationTrigger::TimeBased));
            i = i + 1;
        }
        proof {
            assert forall|id: u64, t: RotationTrigger| #[trigger] r@.contains((id, t)) <==> (t
                == RotationTrigger::TimeBased && self.due_by_time(id, now)) by {
                if r@.contains((id, t)) {
                    let k = choose|k: int| 0 <= k < r@.len() && r@[k] == (id, t);
                    assert(due@.contains(due@[k]));
                }
                if t == RotationTrigger::TimeBased && self.due_by_time(id, now) {
                    assert(due@.contains(id));
                    let k = choose|k: int| 0 <= k < due@.len() && due@[k] == id;
                    assert(r@[k] == (id, t));
                }
            }
            assert forall|a: int, b: int| 0 <= a < b < r@.len() implies (#[trigger] r@[a]).0 != (
            #[trigger] r@[b]).0 by {
                assert(due@[a] != due@[b]);
            }
        }
        let ks = maps::keys(&self.rotation_info);
        let mut j: usize = 0;
        proof {
            maps::lemma_seen_ends(ks@);
        }
        while j < ks.len()
            invariant
                j <= ks@.len(),
                ks@.no_duplicates(),
                ks@.to_set() == self.rotation_info@.dom(),
                forall|a: int, b: int|
                    0 <= a < b < r@.len() ==> (#[trigger] r@[a]).0 != (#[trigger] r@[b]).0,
                forall|id: u64, t: RotationTrigger| #[trigger]
                    r@.contains((id, t)) <==> self.listing(*monitor, id, now) == Some(t) && (
                    self.due_by_time(id, now) || seen(ks@, j as int).contains(id)),
                forall|a: int, b: int|
                    0 <= a < b < r@.len() && (#[trigger] r@[b]).1 == RotationTrigger::TimeBased ==> (
                    #[trigger] r@[a]).1 == RotationTrigger::TimeBased,
            decreases ks@.len() - j,
        {
            proof {
                maps::lemma_seen_next(ks@, j as int);
            }
            let id: u64 = ks[j];
            match self.other_trigger(monitor, id, now) {
                Some(trigger) => {
                    let ghost before = r@;
                    let entry = (id, trigger);
                    r.push(entry);
                    proof {
                        assert forall|y: (u64, RotationTrigger)| #[trigger]
                            r@.contains(y) <==> before.contains(y) || y == entry by {
                            if before.contains(y) {
                                let k = choose|k: int| 0 <= k < before.len() && before[k] == y;
                                assert(r@[k] == y);
                            }
                            assert(r@[before.len() as int] == entry);
                            if r@.contains(y) {
                                let k = choose|k: int| 0 <= k < r@.len() && r@[k] == y;
                                if k < before.len() {
                                    assert(before[k] == y);
                                }
                            }
                        }
                        assert forall|a: int, b: int| 0 <= a < b < r@.len() implies (
                        #[trigger] r@[a]).0 != (#[trigger] r@[b]).0 by {
                            assert(r@[a] == before[a]);
                            if b == before.len() {
                                assert(before.contains((before[a].0, before[a].1)));
                            } else {
                                assert(r@[b] == before[b]);
                            }
                        }
                    }
                },
                None => {},
            }
            j = j + 1;
        }
        proof {
            maps::lemma_seen_ends(ks@);
        }
        r
    }

    /// Why a circuit that is not due by time is listed for rotation, if it is.
    fn other_trigger(&self, monitor: &CircuitHealthMonitor, id: CircuitId, now: Instant) -> (r:
        Option<RotationTrigger>)
        ensures
            r == (if self.due_by_time(id, now) {
                None
            } else {
                self.listing(*monitor, id, now)
            }),
            r != Some(RotationTrigger::TimeBased),
    {
        match self.rotation_info.get(&id) {
            Some(info) => {
                if self.is_due_by_time(info, now) || info.rotation_in_progress || info.age(
                    now,
                ).nanos < self.policy.min_circuit_lifetime.nanos {
                    None
                } else if self.is_ailing(monitor, id) {
                    Some(RotationTrigger::HealthBased)
                } else {
                    self.wear(monitor, id)
                }
            },
            None => None,
        }
    }

    /// The sum of the counts of rotations.
    pub open spec fn total_rotations(self) -> int {
        total(self.rotation_info@.dom(), |id: u64| self.rotation_info@[id].rotation_count as int)
    }

    /// Get rotation statistics
    pub fn get_statistics(&self, now: Instant) -> (r: RotationStatistics)
        requires
            self.total_rotations() <= u32::MAX,
        ensures
            r.total_circuits == self.rotation_info@.len(),
            r.pending_rotations == count(
                self.rotation_info@.dom(),
                |id: u64| self.rotation_info@[id].due(now),
            ),
            r.in_progress_rotations == count(
                self.rotation_info@.dom(),
                |id: u64| self.rotation_info@[id].rotation_in_progress,
            ),
            r.total_rotations_completed == self.total_rotations(),
    {
        let ks = maps::keys(&self.rotation_info);
        let ghost dom = self.rotation_info@.dom();
        let ghost num = |id: u64| self.rotation_info@[id].rotation_count as int;
        let ghost is_d = |id: u64| self.rotation_info@[id].due(now);
        let ghost is_p = |id: u64| self.rotation_info@[id].rotation_in_progress;
        let mut pending: usize = 0;
        let mut in_progress: usize = 0;
        let mut rotations: u32 = 0;
        let mut i: usize = 0;
        proof {
            maps::lemma_seen_ends(ks@);
            maps::lemma_count_empty(is_d);
            maps::lemma_count_empty(is_p);
        }
        while i < ks.len()
            invariant
                i <= ks@.len(),
                ks@.no_duplicates(),
                ks@.to_set() == dom,
                dom == self.rotation_info@.dom(),
                dom.finite(),
                num == (|id: u64| self.rotation_info@[id].rotation_count as int),
                is_d == (|id: u64| self.rotation_info@[id].due(now)),
                is_p == (|id: u64| self.rotation_info@[id].rotation_in_progress),
                total(dom, num) <= u32::MAX,
                pending == count(seen(ks@, i as int), is_d),
                in_progress == count(seen(ks@, i as int), is_p),
                pending <= i,
                in_progress <= i,
                rotations == total(seen(ks@, i as int), num),
            decreases ks@.len() - i,
        {
            let id: u64 = ks[i];
            proof {
                maps::lemma_seen_next(ks@, i as int);
                let s = seen(ks@, i as int);
                maps::lemma_count_insert(s, id, is_d);
                maps::lemma_count_insert(s, id, is_p);
                maps::lemma_total_insert(s, id, num);
                assert forall|x: u64| #[trigger] num(x) >= 0 by {}
                assert(s.insert(id).subset_of(dom));
                maps::lemma_total_part(s.insert(id), dom, num);
                maps::lemma_total_part(s, dom, num);
            }
            match self.rotation_info.get(&id) {
                Some(info) => {
                    if info.rotation_in_progress {
                        in_progress = in_progress + 1;
                    } else if info.is_rotation_due(now) {
                        pending = pending + 1;
                    }
                    rotations = rotations + info.rotation_count;
                },
                None => {},
            }
            i = i + 1;
        }
        proof {
            maps::lemma_seen_ends(ks@);
        }
        RotationStatistics {
            total_circuits: self.rotation_info.len(),
            pending_rotations: pending,
            in_progress_rotations: in_progress,
            total_rotations_completed: rotations,
        }
    }
}

/// A young circuit is never rotated, nor one that is being rotated.
pub proof fn law_young_or_rotating_circuits_are_left_alone(
    rotator: CircuitRotator,
    monitor: CircuitHealthMonitor,
    id: CircuitId,
    now: Instant,
)
    requires
        rotator.rotation_info@.dom().contains(id),
        rotator.rotation_info@[id].rotation_in_progress || elapsed(
            now,
            rotator.rotation_info@[id].created_at,
        ) < rotator.policy.min_circuit_lifetime.nanos,
    ensures
        rotator.verdict(monitor, id, now) is None,
        rotator.listing(monitor, id, now) is None,
        !rotator.due_by_time(id, now),
{
}

/// A circuit that has reached the end of its life is rotated, whatever else the
/// policy says, unless it is too young or being rotated.
pub proof fn law_lifetime_is_limited(
    rotator: CircuitRotator,
    monitor: CircuitHealthMonitor,
    id: CircuitId,
    now: Instant,
)
    requires
        rotator.rotation_info@.dom().contains(id),
        !rotator.rotation_info@[id].rotation_in_progress,
        elapsed(now, rotator.rotation_info@[id].created_at)
            >= rotator.policy.min_circuit_lifetime.nanos,
        elapsed(now, rotator.rotation_info@[id].created_at)
            >= rotator.policy.max_circuit_lifetime.nanos,
    ensures
        rotator.verdict(monitor, id, now) is Some,
{
}

/// A circuit is listed for rotation exactly where it should be rotated.
pub proof fn law_listed_circuits_should_rotate(
    rotator: CircuitRotator,
    monitor: CircuitHealthMonitor,
    id: CircuitId,
    now: Instant,
)
    ensures
        rotator.listing(monitor, id, now) is Some <==> rotator.verdict(monitor, id, now) is Some,
{
}

/// By default a circuit is left alone in its first minute and while it is being
/// rotated. After that it is rotated for ill health where its score is below fifty;
/// else by time where its time has come or it is an hour old; else for its use where
/// it has carried 100 MiB; else for its connections where it has served a thousand
/// requests. It is listed under time rather than health where both hold.
#[verifier::rlimit(40)]
pub proof fn law_why_circuits_rotate_by_default(
    rotator: CircuitRotator,
    monitor: CircuitHealthMonitor,
    id: CircuitId,
    now: Instant,
)
    requires
        rotator.policy == default_rotation_policy(),
        rotator.rotation_info@.dom().contains(id),
        monitor.metrics@.dom().contains(id),
    ensures
        ({
            let info = rotator.rotation_info@[id];
            let m = monitor.metrics@[id];
            let ripe = !info.rotation_in_progress && now.nanos - info.created_at.nanos >= secs(60);
            let ill = m.health_score < 50;
            let late = now.nanos >= info.rotate_at.nanos || now.nanos - info.created_at.nanos
                >= secs(3600);
            let heavy = m.bytes_transferred >= 100 * 1024 * 1024;
            let busy = m.successful_requests + m.failed_requests >= 1000;
            let verdict = rotator.verdict(monitor, id, now);
            let listing = rotator.listing(monitor, id, now);
            &&& verdict is None <==> !ripe || !(ill || late || heavy || busy)
            &&& verdict == Some(RotationTrigger::HealthBased) <==> ripe && ill
            &&& verdict == Some(RotationTrigger::TimeBased) <==> ripe && late && !ill
            &&& verdict == Some(RotationTrigger::UsageBased) <==> ripe && heavy && !ill && !late
            &&& verdict == Some(RotationTrigger::ConnectionBased) <==> ripe && busy && !ill && !late
                && !heavy
            &&& listing == Some(RotationTrigger::TimeBased) <==> ripe && late
            &&& listing == Some(RotationTrigger::HealthBased) <==> ripe && ill && !late
            &&& !late || !ill ==> listing == verdict
        }),
{
}

/// What the policy switches off is never a reason to rotate; but the end of its life
/// still is.
pub proof fn law_switched_off_reasons(
    rotator: CircuitRotator,
    monitor: CircuitHealthMonitor,
    id: CircuitId,
    now: Instant,
)
    ensures
        ({
            let verdict = rotator.verdict(monitor, id, now);
            let info = rotator.rotation_info@[id];
            &&& !rotator.policy.enable_health_rotation ==> verdict != Some(
                RotationTrigger::HealthBased,
            )
            &&& !rotator.policy.enable_usage_rotation ==> verdict != Some(
                RotationTrigger::UsageBased,
            )
            &&& !rotator.policy.enable_connection_rotation ==> verdict != Some(
                RotationTrigger::ConnectionBased,
            )
            &&& !rotator.policy.enable_time_rotation && verdict == Some(RotationTrigger::TimeBased)
                ==> elapsed(now, info.created_at) >= rotator.policy.max_circuit_lifetime.nanos
            &&& verdict != Some(RotationTrigger::Emergency)
            &&& verdict != Some(RotationTrigger::Manual)
        }),
{
}

/// What is to be rotated is still to be rotated later, as long as nothing else
/// changes.
pub proof fn law_rotation_stays_due(
    rotator: CircuitRotator,
    monitor: CircuitHealthMonitor,
    id: CircuitId,
    now: Instant,
    later: Instant,
)
    requires
        now.nanos <= later.nanos,
    ensures
        rotator.verdict(monitor, id, now) is Some ==> rotator.verdict(monitor, id, later) is Some,
        rotator.due_by_time(id, now) ==> rotator.due_by_time(id, later),
{
}

/// By default the first rotation of a new circuit comes ten to eleven minutes after
/// its beginning, whatever the draw.
pub proof fn law_rotation_after_ten_minutes(circuit_id: CircuitId, jittered: Duration, now: Instant)
    requires
        now.nanos + secs(660) <= u64::MAX,
    ensures
        ({
            let info = RotationInfo::fresh(circuit_id, default_rotation_policy(), jittered, now);
            &&& info.circuit_id == circuit_id
            &&& secs(600) <= info.rotate_at.nanos - now.nanos <= secs(660)
            &&& info.created_at == now
            &&& info.rotation_count == 0
            &&& !info.due(now)
        }),
{
    let d = default_rotation_policy().rotation_interval;
    assert(longest(d, 10) == secs(660));
}

/// A circuit that was rotated is off the books and another is on them in its place,
/// new and at rest; the others are as they were, and of the rotation it was told that
/// it began and how it ended.
#[verifier::rlimit(40)]
pub proof fn law_rotation_in_the_books(
    policy: RotationPolicy,
    s0: RotationState,
    circuit_id: CircuitId,
    trigger: RotationTrigger,
    jittered: Duration,
    now: Instant,
    new: CircuitId,
    s1: RotationState,
    other: CircuitId,
)
    requires
        rotation_booked(policy, s0, circuit_id, trigger, jittered, now, new, s1),
        new != circuit_id,
        other != circuit_id,
        other != new,
    ensures
        !s1.info.dom().contains(circuit_id),
        s1.info.dom().contains(new),
        s1.info[new].circuit_id == new && s1.info[new].created_at == now
            && !s1.info[new].rotation_in_progress && s1.info[new].scheduled_by is None,
        s1.info.dom().contains(other) <==> s0.info.dom().contains(other),
        s0.info.dom().contains(other) ==> s1.info[other] == s0.info[other],
        s1.events.len() == s0.events.len() + 2,
        s0.events.is_prefix_of(s1.events),
        s1.events[s0.events.len() as int] == (RotationEvent::RotationStarted {
            circuit_id,
            trigger,
        }),
        s1.events.last() == (RotationEvent::RotationCompleted {
            old_circuit_id: circuit_id,
            new_circuit_id: new,
            trigger,
        }),
{
}

/// A circuit that is being rotated is not rotated a second time: that is refused and
/// changes nothing.
pub proof fn law_one_rotation_at_a_time(
    policy: RotationPolicy,
    config: HealthMonitorConfig,
    s0: RotationState,
    circuit_id: CircuitId,
    info: RotationInfo,
    trigger: RotationTrigger,
    jittered: Duration,
    now: Instant,
    r: Result<CircuitId, RotationError>,
    s1: RotationState,
)
    requires
        s0.info.dom().contains(circuit_id),
        s0.info[circuit_id] == under_way(info, trigger),
        rotated(policy, config, s0, circuit_id, trigger, jittered, now, r, s1),
    ensures
        r == Err::<CircuitId, RotationError>(RotationError::RotationInProgress),
        s1 == s0,
        !under_way(info, trigger).due(now),
        at_rest(under_way(info, trigger)).rotate_at == info.rotate_at,
        !at_rest(under_way(info, trigger)).rotation_in_progress,
{
}

/// Rotation statistics
#[derive(Debug, Clone, Copy, PartialEq, Eq, Structural)]
pub struct RotationStatistics {
    /// Total circuits being tracked
    pub total_circuits: usize,
    /// Number of pending rotations
    pub pending_rotations: usize,
    /// Number of rotations in progress
    pub in_progress_rotations: usize,
    /// Total rotations completed
    pub total_rotations_completed: u32,
}

/// Rotation errors
#[derive(Debug, Clone)]
pub enum RotationError {
    /// The circuit is being rotated.
    RotationInProgress,
    /// There is no such circuit.
    CircuitNotFound(CircuitId),
    /// The pool failed.
    PoolError(String),
    /// The circuit cannot be rotated yet.
    NotReady,
}

impl RotationError {
    /// The error in words.
    pub open spec fn words(self) -> Seq<char> {
        match self {
            RotationError::RotationInProgress => "Rotation already in progress"@,
            RotationError::CircuitNotFound(id) => "Circuit not found: "@ + decimal_text(id as nat),
            RotationError::PoolError(m) => "Pool error: "@ + m@,
            RotationError::NotReady => "Circuit not ready for rotation"@,
        }
    }

    /// The error in words.
    pub fn to_string(&self) -> (r: String)
        ensures
            r@ == self.words(),
    {
        match self {
            RotationError::RotationInProgress => "Rotation already in progress".to_owned(),
            RotationError::CircuitNotFound(id) => text::joined(
                "Circuit not found: ",
                text::decimal(*id).as_str(),
            ),
            RotationError::PoolError(m) => text::joined("Pool error: ", m.as_str()),
            RotationError::NotReady => "Circuit not ready for rotation".to_owned(),
        }
    }
}

} // verus!
