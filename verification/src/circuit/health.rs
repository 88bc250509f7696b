//! Circuit Health Monitoring Module
//!
//! Health tracking for circuits, after Tor's practice:
//! - Exponentially Weighted Moving Average (EWMA) for latency tracking
//! - Failure detection with configurable thresholds
//! - Health scoring (0-100) for circuit quality assessment
//! - Automatic degradation detection and reporting
//!
//! The moving average itself is a floating-point quantity. It is computed by
//! the caller and comes in as a [`Reading`].

use crate::maps;
use crate::maps::{best_first, count, distinct_ids, except, seen, total};
use crate::ratio::Ratio;
use crate::reading;
use crate::reading::Reading;
use crate::time::{elapsed, secs, Duration, Instant};
use std::collections::{HashMap, VecDeque};
use vstd::arithmetic::power2::pow2;
use vstd::prelude::*;

verus! {

/// Health status of a circuit
#[derive(Debug, Clone, Copy, PartialEq, Eq, Hash, Structural)]
pub enum HealthStatus {
    /// Circuit is healthy and performing well
    Healthy,
    /// Circuit is experiencing minor issues but still usable
    Degraded,
    /// Circuit has significant problems, should be replaced
    Unhealthy,
    /// Circuit has failed and is no longer usable
    Failed,
}

impl HealthStatus {
    /// Whether a circuit of this status may be used.
    pub open spec fn usable(self) -> bool {
        self == HealthStatus::Healthy || self == HealthStatus::Degraded
    }

    /// Check if the circuit is usable
    pub fn is_usable(&self) -> (r: bool)
        ensures
            r == self.usable(),
    {
        match self {
            HealthStatus::Healthy | HealthStatus::Degraded => true,
            _ => false,
        }
    }

    /// Get numeric representation (higher is better)
    pub fn score(&self) -> (r: u8)
        ensures
            r == (match *self {
                HealthStatus::Healthy => 100u8,
                HealthStatus::Degraded => 50,
                HealthStatus::Unhealthy => 25,
                HealthStatus::Failed => 0,
            }),
            r <= 100,
            self.usable() <==> r >= 50,
    {
        match self {
            HealthStatus::Healthy => 100,
            HealthStatus::Degraded => 50,
            HealthStatus::Unhealthy => 25,
            HealthStatus::Failed => 0,
        }
    }
}

/// Types of failures that can occur
#[derive(Debug, Clone, Copy, PartialEq, Eq, Hash, Structural)]
pub enum FailureType {
    /// Connection timeout
    Timeout,
    /// Connection refused or reset
    ConnectionFailed,
    /// Protocol error
    ProtocolError,
    /// High latency detected
    HighLatency,
    /// Packet loss detected
    PacketLoss,
    /// Circuit deliberately closed
    DeliberateClose,
    /// Internal error
    InternalError,
}

/// Metrics for a single circuit
#[derive(Debug, Clone)]
pub struct CircuitMetrics {
    /// Circuit ID
    pub circuit_id: u64,
    /// Current health status
    pub status: HealthStatus,
    /// Overall health score (0-100)
    pub health_score: u8,
    /// Moving average of the latency in milliseconds
    pub latency_ewma: Reading,
    /// Half-life of the moving average
    pub ewma_half_life: Duration,
    /// Last measurement time
    pub last_measurement: Instant,
    /// Total bytes transferred
    pub bytes_transferred: u64,
    /// Number of successful requests
    pub successful_requests: u64,
    /// Number of failed requests
    pub failed_requests: u64,
    /// Recent latency samples (for variance calculation)
    pub latency_samples: VecDeque<Duration>,
    /// Recent failure timestamps
    pub recent_failures: VecDeque<Instant>,
    /// Circuit creation time
    pub created_at: Instant,
    /// Last activity time
    pub last_activity: Instant,
    /// Consecutive failures
    pub consecutive_failures: u32,
}

/// The contents of a [`CircuitMetrics`].
pub struct MetricsView {
    /// Circuit ID
    pub circuit_id: u64,
    /// Current health status
    pub status: HealthStatus,
    /// Overall health score
    pub health_score: u8,
    /// Moving average of the latency in milliseconds
    pub latency_ewma: Reading,
    /// Half-life of the moving average
    pub ewma_half_life: Duration,
    /// Last measurement time
    pub last_measurement: Instant,
    /// Total bytes transferred
    pub bytes_transferred: u64,
    /// Number of successful requests
    pub successful_requests: u64,
    /// Number of failed requests
    pub failed_requests: u64,
    /// Recent latency samples
    pub latency_samples: Seq<Duration>,
    /// Recent failure timestamps
    pub recent_failures: Seq<Instant>,
    /// Circuit creation time
    pub created_at: Instant,
    /// Last activity time
    pub last_activity: Instant,
    /// Consecutive failures
    pub consecutive_failures: u32,
}

impl View for CircuitMetrics {
    type V = MetricsView;

    open spec fn view(&self) -> MetricsView {
        MetricsView {
            circuit_id: self.circuit_id,
            status: self.status,
            health_score: self.health_score,
            latency_ewma: self.latency_ewma,
            ewma_half_life: self.ewma_half_life,
            last_measurement: self.last_measurement,
            bytes_transferred: self.bytes_transferred,
            successful_requests: self.successful_requests,
            failed_requests: self.failed_requests,
            latency_samples: self.latency_samples@,
            recent_failures: self.recent_failures@,
            created_at: self.created_at,
            last_activity: self.last_activity,
            consecutive_failures: self.consecutive_failures,
        }
    }
}

/// How many latency samples are kept.
pub const MAX_SAMPLES: usize = 100;

/// The last `n` members of `s`.
pub open spec fn last_of<T>(s: Seq<T>, n: int) -> Seq<T> {
    if s.len() <= n {
        s
    } else {
        s.skip(s.len() - n)
    }
}

/// The failures that are left of `s` when those from more than five minutes
/// before `now` have gone from its front.
pub open spec fn recent(s: Seq<Instant>, now: Instant) -> Seq<Instant>
    decreases s.len(),
{
    if s.len() > 0 && s[0].nanos + 300_000_000_000 < now.nanos {
        recent(s.skip(1), now)
    } else {
        s
    }
}

/// The latency of a sample in whole milliseconds.
pub open spec fn millis(d: Duration) -> int {
    d.nanos as int / 1_000_000
}

/// The sum of the samples in milliseconds.
pub open spec fn sum(s: Seq<Duration>) -> int
    decreases s.len(),
{
    if s.len() == 0 {
        0
    } else {
        sum(s.drop_last()) + millis(s.last())
    }
}

/// The sum of the squares of the samples in milliseconds.
pub open spec fn sum_of_squares(s: Seq<Duration>) -> int
    decreases s.len(),
{
    if s.len() == 0 {
        0
    } else {
        sum_of_squares(s.drop_last()) + millis(s.last()) * millis(s.last())
    }
}

/// Whether the standard deviation of the samples is above one second. With `n`
/// samples the variance is the mean of the squares less the square of the
/// mean, here multiplied by `n` squared.
pub open spec fn widely_spread(s: Seq<Duration>) -> bool {
    s.len() * sum_of_squares(s) - sum(s) * sum(s) > 1_000_000 * (s.len() * s.len())
}

impl MetricsView {
    /// How many requests there were.
    pub open spec fn requests(self) -> int {
        self.successful_requests + self.failed_requests
    }

    /// What the score loses: for a slow average, for each recent and each
    /// consecutive failure, for a high rate of failures once there were more
    /// than ten requests, and for widely spread latencies once there are ten
    /// samples.
    pub open spec fn deduction(self) -> int {
        let slow = if self.latency_ewma.above(reading::TWO_THOUSAND) {
            20int
        } else if self.latency_ewma.above(reading::ONE_THOUSAND) {
            10
        } else {
            0
        };
        let failing = if self.requests() <= 10 {
            0int
        } else if 2 * self.failed_requests > self.requests() {
            30
        } else if 4 * self.failed_requests > self.requests() {
            15
        } else {
            0
        };
        let erratic = if self.latency_samples.len() >= 10 && widely_spread(self.latency_samples) {
            10int
        } else {
            0
        };
        slow + 10 * self.recent_failures.len() + 15 * self.consecutive_failures + failing + erratic
    }

    /// What is left of a score of one hundred.
    pub open spec fn score(self) -> int {
        if self.deduction() >= 100 {
            0
        } else {
            100 - self.deduction()
        }
    }

    /// These metrics with score and status brought up to date.
    pub open spec fn scored(self) -> MetricsView {
        MetricsView {
            health_score: self.score() as u8,
            status: status_of(self.score()),
            ..self
        }
    }

    /// These metrics after a success.
    pub open spec fn after_success(
        self,
        latency: Duration,
        bytes: u64,
        ewma: Reading,
        now: Instant,
    ) -> MetricsView {
        MetricsView {
            latency_ewma: ewma,
            last_measurement: now,
            last_activity: now,
            bytes_transferred: (self.bytes_transferred + bytes) as u64,
            successful_requests: (self.successful_requests + 1) as u64,
            consecutive_failures: 0,
            latency_samples: last_of(self.latency_samples.push(latency), MAX_SAMPLES as int),
            ..self
        }.scored()
    }

    /// These metrics after a failure.
    pub open spec fn after_failure(self, now: Instant) -> MetricsView {
        MetricsView {
            failed_requests: (self.failed_requests + 1) as u64,
            consecutive_failures: (self.consecutive_failures + 1) as u32,
            last_activity: now,
            recent_failures: recent(self.recent_failures.push(now), now),
            ..self
        }.scored()
    }

    /// The metrics of a new circuit.
    pub open spec fn fresh(circuit_id: u64, now: Instant) -> MetricsView {
        MetricsView {
            circuit_id,
            status: HealthStatus::Healthy,
            health_score: 100,
            latency_ewma: Reading { bits: 0 },
            ewma_half_life: Duration { nanos: 10_000_000_000 },
            last_measurement: now,
            bytes_transferred: 0,
            successful_requests: 0,
            failed_requests: 0,
            latency_samples: Seq::empty(),
            recent_failures: Seq::empty(),
            created_at: now,
            last_activity: now,
            consecutive_failures: 0,
        }
    }

    /// Whether there are no more samples than are kept, the requests can be
    /// counted, and the status is the one that the score stands for.
    pub open spec fn wf(self) -> bool {
        &&& self.latency_samples.len() <= MAX_SAMPLES
        &&& self.requests() <= u64::MAX
        &&& self.health_score <= 100
        &&& self.status == status_of(self.health_score as int)
    }

    /// Whether one more success can be counted.
    pub open spec fn has_room_for_success(self, bytes: u64) -> bool {
        self.requests() < u64::MAX && self.bytes_transferred + bytes <= u64::MAX
    }

    /// Whether one more failure can be counted.
    pub open spec fn has_room_for_failure(self) -> bool {
        self.requests() < u64::MAX && self.consecutive_failures < u32::MAX
    }
}

/// The status that a score stands for.
pub open spec fn status_of(score: int) -> HealthStatus {
    if score >= 80 {
        HealthStatus::Healthy
    } else if score >= 50 {
        HealthStatus::Degraded
    } else if score >= 20 {
        HealthStatus::Unhealthy
    } else {
        HealthStatus::Failed
    }
}

/// The largest latency in milliseconds that a sample can have.
pub open spec fn max_millis() -> int {
    18_446_744_073_709
}

proof fn lemma_sums(s: Seq<Duration>)
    ensures
        0 <= sum(s) <= s.len() * max_millis(),
        0 <= sum_of_squares(s) <= s.len() * (max_millis() * max_millis()),
    decreases s.len(),
{
    let m = max_millis();
    if s.len() > 0 {
        lemma_sums(s.drop_last());
        let x = millis(s.last());
        let n = s.len() as int;
        assert(0 <= x <= m);
        assert(0 <= x * x <= m * m) by (nonlinear_arith)
            requires
                0 <= x <= m,
        ;
        assert((n - 1) * m + m == n * m) by (nonlinear_arith);
        assert((n - 1) * (m * m) + m * m == n * (m * m)) by (nonlinear_arith);
    }
}

impl CircuitMetrics {
    /// Whether the metrics are sound.
    pub open spec fn wf(self) -> bool {
        self@.wf()
    }

    /// Create new metrics for a circuit
    pub fn new(circuit_id: u64, now: Instant) -> (r: CircuitMetrics)
        ensures
            r.wf(),
            r@ == MetricsView::fresh(circuit_id, now),
    {
        let r = CircuitMetrics {
            circuit_id,
            status: HealthStatus::Healthy,
            health_score: 100,
            latency_ewma: Reading::zero(),
            ewma_half_life: Duration::from_secs(10),
            last_measurement: now,
            bytes_transferred: 0,
            successful_requests: 0,
            failed_requests: 0,
            latency_samples: VecDeque::new(),
            recent_failures: VecDeque::new(),
            created_at: now,
            last_activity: now,
            consecutive_failures: 0,
        };
        assert(r@.latency_samples =~= Seq::<Duration>::empty());
        assert(r@.recent_failures =~= Seq::<Instant>::empty());
        r
    }

    /// Record a successful request with latency; `ewma` is the new moving
    /// average.
    pub fn record_success(&mut self, latency: Duration, bytes: u64, ewma: Reading, now: Instant)
        requires
            old(self).wf(),
            old(self)@.has_room_for_success(bytes),
        ensures
            final(self).wf(),
            final(self)@ == old(self)@.after_success(latency, bytes, ewma, now),
    {
        self.latency_ewma = ewma;
        self.last_measurement = now;
        self.last_activity = now;
        self.bytes_transferred = self.bytes_transferred + bytes;
        self.successful_requests = self.successful_requests + 1;
        self.consecutive_failures = 0;
        self.latency_samples.push_back(latency);
        if self.latency_samples.len() > MAX_SAMPLES {
            self.latency_samples.pop_front();
        }
        assert(self.latency_samples@ =~= last_of(
            old(self).latency_samples@.push(latency),
            MAX_SAMPLES as int,
        ));
        self.update_health_score();
    }

    /// Record a failed request
    pub fn record_failure(&mut self, _failure_type: FailureType, now: Instant)
        requires
            old(self).wf(),
            old(self)@.has_room_for_failure(),
        ensures
            final(self).wf(),
            final(self)@ == old(self)@.after_failure(now),
    {
        self.failed_requests = self.failed_requests + 1;
        self.consecutive_failures = self.consecutive_failures + 1;
        self.last_activity = now;
        self.recent_failures.push_back(now);
        let ghost pushed = self.recent_failures@;
        let ghost before = *self;
        while self.recent_failures.len() > 0 && now.nanos > 300_000_000_000
            && self.recent_failures[0].nanos < now.nanos - 300_000_000_000
            invariant
                recent(pushed, now) == recent(self.recent_failures@, now),
                *self == (CircuitMetrics { recent_failures: self.recent_failures, ..before }),
            decreases self.recent_failures@.len(),
        {
            let ghost s = self.recent_failures@;
            self.recent_failures.pop_front();
            assert(self.recent_failures@ =~= s.skip(1));
        }
        self.update_health_score();
    }

    /// Update the health score based on current metrics
    pub fn update_health_score(&mut self)
        requires
            old(self).latency_samples@.len() <= MAX_SAMPLES,
        ensures
            final(self)@ == old(self)@.scored(),
    {
        let mut lost: u128 = 0;
        if self.latency_ewma.exceeds(reading::TWO_THOUSAND) {
            lost = lost + 20;
        } else if self.latency_ewma.exceeds(reading::ONE_THOUSAND) {
            lost = lost + 10;
        }
        lost = lost + self.recent_failures.len() as u128 * 10;
        lost = lost + self.consecutive_failures as u128 * 15;
        let requests: u128 = self.successful_requests as u128 + self.failed_requests as u128;
        if requests > 10 {
            if self.failed_requests as u128 * 2 > requests {
                lost = lost + 30;
            } else if self.failed_requests as u128 * 4 > requests {
                lost = lost + 15;
            }
        }
        if self.latency_samples.len() >= 10 {
            if self.is_widely_spread() {
                lost = lost + 10;
            }
        }
        let score: u8 = if lost >= 100 {
            0
        } else {
            100 - lost as u8
        };
        self.health_score = score;
        self.status = if score >= 80 {
            HealthStatus::Healthy
        } else if score >= 50 {
            HealthStatus::Degraded
        } else if score >= 20 {
            HealthStatus::Unhealthy
        } else {
            HealthStatus::Failed
        };
    }

    /// Whether the latencies are widely spread
    pub fn is_widely_spread(&self) -> (r: bool)
        requires
            self.latency_samples@.len() <= MAX_SAMPLES,
        ensures
            r == widely_spread(self.latency_samples@),
    {
        let mut s1: u128 = 0;
        let mut s2: u128 = 0;
        let mut i: usize = 0;
        while i < self.latency_samples.len()
            invariant
                self.latency_samples@.len() <= MAX_SAMPLES,
                i <= self.latency_samples@.len(),
                s1 == sum(self.latency_samples@.take(i as int)),
                s2 == sum_of_squares(self.latency_samples@.take(i as int)),
            decreases self.latency_samples@.len() - i,
        {
            let x: u128 = self.latency_samples[i].as_millis() as u128;
            proof {
                let next = self.latency_samples@.take(i + 1);
                assert(next.drop_last() =~= self.latency_samples@.take(i as int));
                lemma_sums(next);
                lemma_sums(self.latency_samples@.take(i as int));
                assert(next.len() * max_millis() <= 100 * max_millis()) by (nonlinear_arith)
                    requires
                        next.len() <= 100,
                        max_millis() >= 0,
                ;
                assert(next.len() * (max_millis() * max_millis()) <= 100 * (max_millis()
                    * max_millis())) by (nonlinear_arith)
                    requires
                        next.len() <= 100,
                        max_millis() >= 0,
                ;
                assert(x == millis(self.latency_samples@[i as int]));
                assert(0 <= x * x <= max_millis() * max_millis()) by (nonlinear_arith)
                    requires
                        0 <= x <= max_millis(),
                ;
            }
            s1 = s1 + x;
            s2 = s2 + x * x;
            i = i + 1;
        }
        let n: u128 = self.latency_samples.len() as u128;
        proof {
            let s = self.latency_samples@;
            let m = max_millis();
            assert(s.take(i as int) =~= s);
            lemma_sums(s);
            assert(n * s2 <= 100 * (100 * (m * m))) by (nonlinear_arith)
                requires
                    0 <= n <= 100,
                    0 <= s2 <= n * (m * m),
                    m >= 0,
            {
                assert(n * (m * m) <= 100 * (m * m));
                assert(n * s2 <= 100 * s2);
            }
            assert(0 <= s1 * s1 <= (100 * m) * (100 * m)) by (nonlinear_arith)
                requires
                    0 <= s1 <= n * m,
                    0 <= n <= 100,
                    m >= 0,
            {
                assert(n * m <= 100 * m);
                assert(s1 * s1 <= (100 * m) * (100 * m));
            }
            assert(0 <= n * n <= 10_000) by (nonlinear_arith)
                requires
                    0 <= n <= 100,
            ;
            assert(100 * (100 * (m * m)) < u128::MAX - 20_000_000_000);
            assert((100 * m) * (100 * m) == 100 * (100 * (m * m))) by (nonlinear_arith);
        }
        n * s2 > s1 * s1 + 1_000_000 * (n * n)
    }

    /// Get current average latency
    pub fn average_latency(&self) -> (r: Duration)
        requires
            self.wf(),
        ensures
            r.nanos == average(self.latency_samples@) * 1_000_000,
    {
        if self.latency_samples.len() == 0 {
            return Duration::from_millis(0);
        }
        let mut s: u128 = 0;
        let mut i: usize = 0;
        while i < self.latency_samples.len()
            invariant
                self.wf(),
                i <= self.latency_samples@.len(),
                s == sum(self.latency_samples@.take(i as int)),
            decreases self.latency_samples@.len() - i,
        {
            proof {
                let next = self.latency_samples@.take(i + 1);
                assert(next.drop_last() =~= self.latency_samples@.take(i as int));
                lemma_sums(next);
                assert(next.len() * max_millis() <= 100 * max_millis()) by (nonlinear_arith)
                    requires
                        next.len() <= 100,
                        max_millis() >= 0,
                ;
            }
            s = s + self.latency_samples[i].as_millis() as u128;
            i = i + 1;
        }
        let n: u128 = self.latency_samples.len() as u128;
        proof {
            assert(self.latency_samples@.take(i as int) =~= self.latency_samples@);
            lemma_sums(self.latency_samples@);
            assert(0 <= s as int / n as int <= max_millis()) by (nonlinear_arith)
                requires
                    0 <= s <= n * max_millis(),
                    n > 0,
            ;
        }
        Duration::from_millis((s / n) as u64)
    }

    /// Get failure rate, from zero to one
    pub fn failure_rate(&self) -> (r: Ratio)
        requires
            self@.requests() <= u64::MAX,
        ensures
            r == rate(self@),
    {
        let requests: u64 = self.successful_requests + self.failed_requests;
        if requests == 0 {
            Ratio::new(0, 1)
        } else {
            Ratio::new(self.failed_requests, requests)
        }
    }

    /// Check if circuit needs rotation due to age
    pub fn should_rotate_due_to_age(&self, max_age: Duration, now: Instant) -> (r: bool)
        ensures
            r == (elapsed(now, self.created_at) > max_age.nanos),
    {
        self.age(now).nanos > max_age.nanos
    }

    /// Check if circuit needs rotation due to usage
    pub fn should_rotate_due_to_usage(&self, max_bytes: u64, max_requests: u64) -> (r: bool)
        requires
            self@.requests() <= u64::MAX,
        ensures
            r == (self.bytes_transferred >= max_bytes || self@.requests() >= max_requests),
    {
        self.bytes_transferred >= max_bytes || self.successful_requests + self.failed_requests
            >= max_requests
    }

    /// Get age of the circuit
    pub fn age(&self, now: Instant) -> (r: Duration)
        ensures
            r.nanos == elapsed(now, self.created_at),
    {
        now.duration_since(self.created_at)
    }

    /// Get time since last activity
    pub fn idle_time(&self, now: Instant) -> (r: Duration)
        ensures
            r.nanos == elapsed(now, self.last_activity),
    {
        now.duration_since(self.last_activity)
    }
}

/// The average of the samples in whole milliseconds, zero where there are none.
pub open spec fn average(s: Seq<Duration>) -> int {
    if s.len() == 0 {
        0
    } else {
        sum(s) / s.len() as int
    }
}

/// The share of the requests that failed, zero where there were none.
pub open spec fn rate(m: MetricsView) -> Ratio {
    if m.requests() == 0 {
        Ratio { num: 0, den: 1 }
    } else {
        Ratio { num: m.failed_requests, den: m.requests() as u64 }
    }
}

/// A score never exceeds one hundred, and the status is usable exactly from
/// fifty on.
pub proof fn law_score_and_status_agree(m: MetricsView)
    ensures
        m.scored().health_score <= 100,
        m.scored().status == status_of(m.scored().health_score as int),
        m.scored().status.usable() <==> m.scored().health_score >= 50,
{
}

/// A failure never raises the score of a circuit that is up to date, as long
/// as no older failure falls out of sight.
pub proof fn law_failures_do_not_heal(m: MetricsView, now: Instant)
    requires
        m.wf(),
        m.has_room_for_failure(),
        m.health_score == m.score(),
        recent(m.recent_failures.push(now), now) == m.recent_failures.push(now),
    ensures
        m.after_failure(now).health_score <= m.health_score,
        m.health_score > 0 ==> m.after_failure(now).health_score < m.health_score,
{
    let after = MetricsView {
        failed_requests: (m.failed_requests + 1) as u64,
        consecutive_failures: (m.consecutive_failures + 1) as u32,
        last_activity: now,
        recent_failures: recent(m.recent_failures.push(now), now),
        ..m
    };
    assert(after.deduction() >= m.deduction() + 25);
}

/// What is left of `score` when it loses `points`; it never falls below zero.
pub open spec fn less(score: int, points: int) -> int {
    if score >= points {
        score - points
    } else {
        0
    }
}

/// The score of a circuit without failures is 100 for an average latency of up to
/// 1000 milliseconds, 90 above that and up to 2000, and 80 above 2000; from ten
/// samples on it is ten lower where these are widely spread. So such a circuit is
/// always usable, and healthy while it has fewer than ten samples.
#[verifier::rlimit(40)]
pub proof fn law_score_without_failures(m: MetricsView)
    requires
        m.latency_ewma.finite(),
        m.failed_requests == 0,
        m.recent_failures.len() == 0,
        m.consecutive_failures == 0,
    ensures
        ({
            let base: int = if m.latency_ewma.scaled() <= 1000 * pow2(1074) {
                100
            } else if m.latency_ewma.scaled() <= 2000 * pow2(1074) {
                90
            } else {
                80
            };
            &&& m.latency_samples.len() < 10 ==> m.scored().health_score == base
                && m.scored().status == HealthStatus::Healthy
            &&& m.latency_samples.len() >= 10 ==> m.scored().health_score == if widely_spread(
                m.latency_samples,
            ) {
                base - 10
            } else {
                base
            }
            &&& m.scored().health_score >= 70
            &&& m.scored().status == HealthStatus::Healthy || m.scored().status
                == HealthStatus::Degraded
        }),
{
    reading::law_marks_are_exact();
    reading::law_order_of_patterns(Reading { bits: reading::ONE_THOUSAND }, m.latency_ewma);
    reading::law_order_of_patterns(Reading { bits: reading::TWO_THOUSAND }, m.latency_ewma);
}

/// Each recent failure costs ten points and each consecutive one fifteen,
/// whatever else there is, until nothing is left to lose.
pub proof fn law_what_a_failure_costs(m: MetricsView, at: Instant)
    requires
        m.consecutive_failures < u32::MAX,
    ensures
        (MetricsView { recent_failures: m.recent_failures.push(at), ..m }).score() == less(
            m.score(),
            10,
        ),
        (MetricsView {
            consecutive_failures: (m.consecutive_failures + 1) as u32,
            ..m
        }).score() == less(m.score(), 15),
{
}

/// More failures than successes cost thirty points, and more than a third as many
/// fifteen, once there were more than ten requests; before that, and with fewer
/// failures, they cost nothing.
pub proof fn law_what_failing_often_costs(m: MetricsView)
    ensures
        m.score() == less(
            (MetricsView { successful_requests: 0, failed_requests: 0, ..m }).score(),
            if m.successful_requests + m.failed_requests <= 10 {
                0
            } else if m.failed_requests > m.successful_requests {
                30
            } else if 3 * m.failed_requests > m.successful_requests {
                15
            } else {
                0
            },
        ),
{
}

/// An average latency above two seconds costs twenty points, and one above one
/// second ten; widely spread samples cost ten, once there are ten.
pub proof fn law_what_slowness_costs(m: MetricsView)
    requires
        m.latency_ewma.finite(),
    ensures
        m.score() == less(
            (MetricsView { latency_ewma: Reading { bits: 0 }, ..m }).score(),
            if m.latency_ewma.scaled() > 2000 * pow2(1074) {
                20
            } else if m.latency_ewma.scaled() > 1000 * pow2(1074) {
                10
            } else {
                0
            },
        ),
        m.score() == less(
            (MetricsView { latency_samples: Seq::empty(), ..m }).score(),
            if m.latency_samples.len() >= 10 && widely_spread(m.latency_samples) {
                10
            } else {
                0
            },
        ),
{
    reading::law_marks_are_exact();
    reading::law_order_of_patterns(Reading { bits: reading::ONE_THOUSAND }, m.latency_ewma);
    reading::law_order_of_patterns(Reading { bits: reading::TWO_THOUSAND }, m.latency_ewma);
}

/// A score of 80 to 100 stands for a healthy circuit, 50 to 79 for a degraded
/// one, 20 to 49 for an unhealthy one and 0 to 19 for one that has failed.
pub proof fn law_status_of_a_score(m: MetricsView)
    ensures
        m.scored().health_score == m.score(),
        80 <= m.score() <= 100 <==> m.scored().status == HealthStatus::Healthy,
        50 <= m.score() <= 79 <==> m.scored().status == HealthStatus::Degraded,
        20 <= m.score() <= 49 <==> m.scored().status == HealthStatus::Unhealthy,
        0 <= m.score() <= 19 <==> m.scored().status == HealthStatus::Failed,
{
}

/// Ten recent failures, or seven in a row, are the end of any circuit.
pub proof fn law_many_failures_are_the_end(m: MetricsView)
    ensures
        m.recent_failures.len() >= 10 || m.consecutive_failures >= 7 ==> m.scored().health_score
            == 0 && m.scored().status == HealthStatus::Failed,
{
}

/// The sum of the squares by which `n` times each sample differs from `total`, in
/// milliseconds.
pub open spec fn squared_differences(s: Seq<Duration>, n: int, total: int) -> int
    decreases s.len(),
{
    if s.len() == 0 {
        0
    } else {
        let d = n * millis(s.last()) - total;
        squared_differences(s.drop_last(), n, total) + d * d
    }
}

proof fn lemma_squared_differences(s: Seq<Duration>, n: int, total: int)
    ensures
        squared_differences(s, n, total) == n * n * sum_of_squares(s) - 2 * n * total * sum(s)
            + s.len() * (total * total),
    decreases s.len(),
{
    if s.len() == 0 {
        assert(n * n * 0 - 2 * n * total * 0 + 0 * (total * total) == 0) by (nonlinear_arith);
    } else {
        lemma_squared_differences(s.drop_last(), n, total);
        let q = sum_of_squares(s.drop_last());
        let t = sum(s.drop_last());
        let k = s.len() - 1;
        let x = millis(s.last());
        let d = n * x - total;
        assert(n * n * q - 2 * n * total * t + k * (total * total) + d * d == n * n * (q + x * x)
            - 2 * n * total * (t + x) + (k + 1) * (total * total)) by (nonlinear_arith)
            requires
                d == n * x - total,
        ;
    }
}

/// Samples are widely spread exactly if their mean square distance from their
/// mean is above the square of one thousand milliseconds. The distances are here
/// multiplied by the number of the samples, so as to stay whole.
pub proof fn law_widely_spread_is_a_deviation(s: Seq<Duration>)
    requires
        s.len() > 0,
    ensures
        widely_spread(s) <==> squared_differences(s, s.len() as int, sum(s)) > s.len() * (1000
            * s.len()) * (1000 * s.len()),
{
    let n = s.len() as int;
    let t = sum(s);
    let q = sum_of_squares(s);
    lemma_squared_differences(s, n, t);
    let v = n * q - t * t;
    assert(n * n * q - 2 * n * t * t + n * (t * t) == n * v) by (nonlinear_arith)
        requires
            v == n * q - t * t,
    ;
    let bound = 1_000_000 * (n * n);
    assert(n * (1000 * n) * (1000 * n) == n * bound) by (nonlinear_arith)
        requires
            bound == 1_000_000 * (n * n),
    ;
    assert(n * v > n * bound <==> v > bound) by (nonlinear_arith)
        requires
            n > 0,
    ;
}

/// The sum of the samples and their average lie where their least and their
/// greatest put them, and the average is what the sum gives each sample, the rest
/// being less than one millisecond for each.
pub proof fn law_average_lies_between(s: Seq<Duration>, least: int, greatest: int)
    requires
        s.len() > 0,
        forall|i: int| 0 <= i < s.len() ==> least <= millis(#[trigger] s[i]) <= greatest,
    ensures
        s.len() * least <= sum(s) <= s.len() * greatest,
        least <= average(s) <= greatest,
        s.len() * average(s) <= sum(s) < s.len() * (average(s) + 1),
{
    lemma_sum_between(s, least, greatest);
    let n = s.len() as int;
    vstd::arithmetic::div_mod::lemma_fundamental_div_mod(sum(s), n);
    vstd::arithmetic::div_mod::lemma_mod_bound(sum(s), n);
    let a = average(s);
    assert(n * (a + 1) == n * a + n) by (nonlinear_arith);
    assert(least <= a) by (nonlinear_arith)
        requires
            n > 0,
            n * least <= sum(s),
            sum(s) < n * (a + 1),
    ;
    assert(a <= greatest) by (nonlinear_arith)
        requires
            n > 0,
            n * a <= sum(s),
            sum(s) <= n * greatest,
    ;
}

proof fn lemma_sum_between(s: Seq<Duration>, least: int, greatest: int)
    requires
        forall|i: int| 0 <= i < s.len() ==> least <= millis(#[trigger] s[i]) <= greatest,
    ensures
        s.len() * least <= sum(s) <= s.len() * greatest,
    decreases s.len(),
{
    if s.len() > 0 {
        let k = s.len() - 1;
        assert forall|i: int| 0 <= i < k implies least <= millis(
            #[trigger] s.drop_last()[i],
        ) <= greatest by {
            assert(s.drop_last()[i] == s[i]);
        }
        lemma_sum_between(s.drop_last(), least, greatest);
        assert(s.last() == s[k]);
        assert((k + 1) * least == k * least + least) by (nonlinear_arith);
        assert((k + 1) * greatest == k * greatest + greatest) by (nonlinear_arith);
    }
}

/// A latency counts in whole milliseconds: as many as there are of a million
/// nanoseconds each, and what is left is less than one.
pub proof fn law_latency_in_milliseconds(d: Duration)
    ensures
        1_000_000 * millis(d) <= d.nanos < 1_000_000 * (millis(d) + 1),
{
}

/// Of failures in the order of time, those stay in sight that happened no more
/// than five minutes ago.
pub proof fn law_failures_fade_after_five_minutes(s: Seq<Instant>, now: Instant, at: Instant)
    requires
        forall|i: int, j: int| 0 <= i < j < s.len() ==> s[i].nanos <= s[j].nanos,
        forall|i: int| 0 <= i < s.len() ==> (#[trigger] s[i]).nanos <= now.nanos,
    ensures
        recent(s, now).contains(at) <==> s.contains(at) && now.nanos - at.nanos <= secs(300),
    decreases s.len(),
{
    if s.len() > 0 && s[0].nanos + 300_000_000_000 < now.nanos {
        law_failures_fade_after_five_minutes(s.skip(1), now, at);
        if s.skip(1).contains(at) {
            let i = choose|i: int| 0 <= i < s.skip(1).len() && s.skip(1)[i] == at;
            assert(s[i + 1] == at);
        }
        if s.contains(at) && at != s[0] {
            let i = choose|i: int| 0 <= i < s.len() && s[i] == at;
            assert(s.skip(1)[i - 1] == at);
        }
    } else if s.contains(at) {
        let i = choose|i: int| 0 <= i < s.len() && s[i] == at;
        assert(s[0].nanos <= s[i].nanos);
    }
}

/// A success counts once, ends a row of failures, leaves the failures that are in
/// sight, and its latency comes last among the samples, of which the latest
/// hundred are kept.
pub proof fn law_after_a_success(
    m: MetricsView,
    latency: Duration,
    bytes: u64,
    ewma: Reading,
    now: Instant,
)
    requires
        m.wf(),
        m.has_room_for_success(bytes),
    ensures
        ({
            let after = m.after_success(latency, bytes, ewma, now);
            let kept = after.latency_samples;
            let had = m.latency_samples;
            &&& after.requests() == m.requests() + 1
            &&& after.failed_requests == m.failed_requests
            &&& after.consecutive_failures == 0
            &&& after.recent_failures == m.recent_failures
            &&& after.bytes_transferred == m.bytes_transferred + bytes
            &&& kept.len() == if had.len() < 100 {
                had.len() + 1
            } else {
                100
            }
            &&& kept.last() == latency
            &&& forall|i: int|
                1 <= i < kept.len() ==> #[trigger] kept[kept.len() - 1 - i] == had[had.len() - i]
        }),
{
}

/// A failure counts once, as a request, in its row and among those in sight,
/// where it comes last, and nothing else is measured.
pub proof fn law_after_a_failure(m: MetricsView, now: Instant)
    requires
        m.wf(),
        m.has_room_for_failure(),
    ensures
        ({
            let after = m.after_failure(now);
            &&& after.requests() == m.requests() + 1
            &&& after.failed_requests == m.failed_requests + 1
            &&& after.consecutive_failures == m.consecutive_failures + 1
            &&& after.recent_failures.len() > 0
            &&& after.recent_failures.last() == now
            &&& after.recent_failures.len() <= m.recent_failures.len() + 1
            &&& after.latency_samples == m.latency_samples
            &&& after.latency_ewma == m.latency_ewma
            &&& after.bytes_transferred == m.bytes_transferred
        }),
{
    lemma_last_stays(m.recent_failures.push(now), now);
}

proof fn lemma_last_stays(s: Seq<Instant>, now: Instant)
    requires
        s.len() > 0,
        s.last() == now,
    ensures
        0 < recent(s, now).len() <= s.len(),
        recent(s, now).last() == now,
    decreases s.len(),
{
    if s[0].nanos + 300_000_000_000 < now.nanos {
        assert(s.len() > 1);
        lemma_last_stays(s.skip(1), now);
    }
}

/// Configuration for health monitoring
#[derive(Debug, Clone, Copy, PartialEq, Eq, Structural)]
pub struct HealthMonitorConfig {
    /// Maximum latency threshold for healthy circuits
    pub max_latency_threshold: Duration,
    /// Maximum consecutive failures before marking unhealthy
    pub max_consecutive_failures: u32,
    /// Maximum failure rate
    pub max_failure_rate: Ratio,
    /// Maximum circuit age before rotation
    pub max_circuit_age: Duration,
    /// Maximum bytes before rotation
    pub max_bytes_before_rotation: u64,
    /// Maximum requests before rotation
    pub max_requests_before_rotation: u64,
    /// EWMA half-life for latency calculation
    pub ewma_half_life: Duration,
    /// Health check interval
    pub health_check_interval: Duration,
    /// Idle timeout for unused circuits
    pub idle_timeout: Duration,
}

/// The default configuration: five seconds of latency, three failures in a
/// row, three failures in ten, ten minutes of age, 100 MiB, a thousand
/// requests, a half-life of ten seconds, a check every thirty seconds and five
/// minutes of idleness.
pub open spec fn default_health_config() -> HealthMonitorConfig {
    HealthMonitorConfig {
        max_latency_threshold: Duration { nanos: 5_000_000_000 },
        max_consecutive_failures: 3,
        max_failure_rate: Ratio { num: 3, den: 10 },
        max_circuit_age: Duration { nanos: 600_000_000_000 },
        max_bytes_before_rotation: 104_857_600,
        max_requests_before_rotation: 1000,
        ewma_half_life: Duration { nanos: 10_000_000_000 },
        health_check_interval: Duration { nanos: 30_000_000_000 },
        idle_timeout: Duration { nanos: 300_000_000_000 },
    }
}

impl Default for HealthMonitorConfig {
    fn default() -> (r: HealthMonitorConfig)
        ensures
            r == default_health_config(),
    {
        HealthMonitorConfig {
            max_latency_threshold: Duration::from_secs(5),
            max_consecutive_failures: 3,
            max_failure_rate: Ratio::new(3, 10),
            max_circuit_age: Duration::from_secs(600),
            max_bytes_before_rotation: 100 * 1024 * 1024,
            max_requests_before_rotation: 1000,
            ewma_half_life: Duration::from_secs(10),
            health_check_interval: Duration::from_secs(30),
            idle_timeout: Duration::from_secs(300),
        }
    }
}

/// Whether a circuit with metrics `m` is to be replaced: it is in a bad state,
/// too old, used too much, failing in a row, idle too long or failing too
/// often.
pub open spec fn worn_out(config: HealthMonitorConfig, m: MetricsView, now: Instant) -> bool {
    ||| !m.status.usable()
    ||| elapsed(now, m.created_at) > config.max_circuit_age.nanos
    ||| m.bytes_transferred >= config.max_bytes_before_rotation
    ||| m.requests() >= config.max_requests_before_rotation
    ||| m.consecutive_failures >= config.max_consecutive_failures
    ||| elapsed(now, m.last_activity) > config.idle_timeout.nanos
    ||| rate(m).above(config.max_failure_rate)
}

/// By default a circuit is worn out once it is in a bad state, older than ten
/// minutes, idle for more than five, has carried 100 MiB or a thousand requests,
/// has failed three times in a row, or fails more than three times in ten.
#[verifier::rlimit(40)]
pub proof fn law_worn_out_by_default(m: MetricsView, now: Instant)
    requires
        m.wf(),
    ensures
        worn_out(default_health_config(), m, now) <==> m.health_score < 50 || now.nanos
            - m.created_at.nanos > secs(600) || now.nanos - m.last_activity.nanos > secs(300)
            || m.bytes_transferred >= 100 * 1024 * 1024 || m.successful_requests
            + m.failed_requests >= 1000 || m.consecutive_failures >= 3 || 10 * m.failed_requests > 3
            * (m.successful_requests + m.failed_requests),
{
}

/// What is worn out stays so as time passes and as more is carried, asked and
/// failed; and stricter limits wear out no less.
pub proof fn law_wear_does_not_heal(
    config: HealthMonitorConfig,
    stricter: HealthMonitorConfig,
    m: MetricsView,
    now: Instant,
    later: Instant,
)
    requires
        worn_out(config, m, now),
        now.nanos <= later.nanos,
        stricter.max_circuit_age.nanos <= config.max_circuit_age.nanos,
        stricter.max_bytes_before_rotation <= config.max_bytes_before_rotation,
        stricter.max_requests_before_rotation <= config.max_requests_before_rotation,
        stricter.max_consecutive_failures <= config.max_consecutive_failures,
        stricter.idle_timeout.nanos <= config.idle_timeout.nanos,
        stricter.max_failure_rate == config.max_failure_rate,
    ensures
        worn_out(stricter, m, later),
{
}

/// A new circuit is not worn out.
pub proof fn law_new_circuits_are_not_worn_out(circuit_id: u64, now: Instant)
    ensures
        !worn_out(default_health_config(), MetricsView::fresh(circuit_id, now), now),
        MetricsView::fresh(circuit_id, now).scored() == MetricsView::fresh(circuit_id, now),
{
}

/// Circuit health monitor
pub struct CircuitHealthMonitor {
    /// Configuration
    pub config: HealthMonitorConfig,
    /// Metrics for each circuit
    pub metrics: HashMap<u64, CircuitMetrics>,
    /// Circuit IDs sorted by health score (ascending)
    pub health_ranking: Vec<u64>,
}

/// Whether `ranking` lists every circuit of `metrics` once, the worst score
/// first.
pub open spec fn ranks(ranking: Seq<u64>, metrics: Map<u64, CircuitMetrics>) -> bool {
    &&& ranking.no_duplicates()
    &&& ranking.to_set() == metrics.dom()
    &&& forall|i: int, j: int|
        0 <= i < j < ranking.len() ==> metrics[#[trigger] ranking[i]].health_score
            <= metrics[#[trigger] ranking[j]].health_score
}

impl CircuitHealthMonitor {
    /// Whether every circuit's metrics are sound and filed under its number.
    pub open spec fn wf(self) -> bool {
        forall|id: u64| #[trigger]
            self.metrics@.dom().contains(id) ==> self.metrics@[id].wf()
                && self.metrics@[id].circuit_id == id
    }

    /// The metrics of a circuit; those of a new one where it is not known.
    pub open spec fn metrics_or_fresh(self, id: u64, now: Instant) -> MetricsView {
        if self.metrics@.dom().contains(id) {
            self.metrics@[id]@
        } else {
            MetricsView::fresh(id, now)
        }
    }

    /// Whether `other` has the metrics `m` for the circuit `id`, and for the
    /// rest what this monitor has.
    pub open spec fn changed_only(
        self,
        id: u64,
        m: MetricsView,
        other: CircuitHealthMonitor,
    ) -> bool {
        &&& other.config == self.config
        &&& other.metrics@.dom() == self.metrics@.dom().insert(id)
        &&& other.metrics@[id]@ == m
        &&& other.metrics@.remove(id) == self.metrics@.remove(id)
    }

    /// Create a new health monitor with default configuration
    pub fn new() -> (r: CircuitHealthMonitor)
        ensures
            r.wf(),
            r.config == default_health_config(),
            r.metrics@ == Map::<u64, CircuitMetrics>::empty(),
            r.health_ranking@ == Seq::<u64>::empty(),
    {
        Self::with_config(HealthMonitorConfig::default())
    }

    /// Create a new health monitor with custom configuration
    pub fn with_config(config: HealthMonitorConfig) -> (r: CircuitHealthMonitor)
        ensures
            r.wf(),
            r.config == config,
            r.metrics@ == Map::<u64, CircuitMetrics>::empty(),
            r.health_ranking@ == Seq::<u64>::empty(),
    {
        CircuitHealthMonitor { config, metrics: HashMap::new(), health_ranking: Vec::new() }
    }

    /// Register a new circuit for monitoring
    pub fn register_circuit(&mut self, circuit_id: u64, now: Instant)
        requires
            old(self).wf(),
        ensures
            final(self).wf(),
            old(self).changed_only(circuit_id, MetricsView::fresh(circuit_id, now), *final(self)),
            final(self).health_ranking@ == old(self).health_ranking@.push(circuit_id),
    {
        let m = CircuitMetrics::new(circuit_id, now);
        self.metrics.insert(circuit_id, m);
        self.health_ranking.push(circuit_id);
        assert(self.metrics@.remove(circuit_id) =~= old(self).metrics@.remove(circuit_id));
    }

    /// Unregister a circuit from monitoring
    pub fn unregister_circuit(&mut self, circuit_id: u64)
        requires
            old(self).wf(),
        ensures
            final(self).wf(),
            final(self).config == old(self).config,
            final(self).metrics@ == old(self).metrics@.remove(circuit_id),
            final(self).health_ranking@ == except(old(self).health_ranking@, circuit_id),
    {
        self.metrics.remove(&circuit_id);
        self.health_ranking = maps::without(&self.health_ranking, circuit_id);
    }

    /// Record a successful request for a circuit, which is registered where it
    /// is not known; `ewma` is its new moving average.
    pub fn record_success(
        &mut self,
        circuit_id: u64,
        latency: Duration,
        bytes: u64,
        ewma: Reading,
        now: Instant,
    )
        requires
            old(self).wf(),
            old(self).metrics_or_fresh(circuit_id, now).has_room_for_success(bytes),
        ensures
            final(self).wf(),
            old(self).changed_only(
                circuit_id,
                old(self).metrics_or_fresh(circuit_id, now).after_success(
                    latency,
                    bytes,
                    ewma,
                    now,
                ),
                *final(self),
            ),
            ranks(final(self).health_ranking@, final(self).metrics@),
    {
        let mut m = match self.metrics.remove(&circuit_id) {
            Some(m) => m,
            None => CircuitMetrics::new(circuit_id, now),
        };
        m.record_success(latency, bytes, ewma, now);
        self.metrics.insert(circuit_id, m);
        assert(self.metrics@.remove(circuit_id) =~= old(self).metrics@.remove(circuit_id));
        assert(self.metrics@.dom() =~= old(self).metrics@.dom().insert(circuit_id));
        self.update_health_ranking();
    }

    /// Record a failed request for a circuit, which is registered where it is
    /// not known
    pub fn record_failure(&mut self, circuit_id: u64, failure_type: FailureType, now: Instant)
        requires
            old(self).wf(),
            old(self).metrics_or_fresh(circuit_id, now).has_room_for_failure(),
        ensures
            final(self).wf(),
            old(self).changed_only(
                circuit_id,
                old(self).metrics_or_fresh(circuit_id, now).after_failure(now),
                *final(self),
            ),
            ranks(final(self).health_ranking@, final(self).metrics@),
    {
        let mut m = match self.metrics.remove(&circuit_id) {
            Some(m) => m,
            None => CircuitMetrics::new(circuit_id, now),
        };
        m.record_failure(failure_type, now);
        self.metrics.insert(circuit_id, m);
        assert(self.metrics@.remove(circuit_id) =~= old(self).metrics@.remove(circuit_id));
        assert(self.metrics@.dom() =~= old(self).metrics@.dom().insert(circuit_id));
        self.update_health_ranking();
    }

    /// Whether one more success of a circuit can be counted
    pub fn can_record_success(&self, circuit_id: u64, bytes: u64, now: Instant) -> (r: bool)
        requires
            self.wf(),
        ensures
            r == self.metrics_or_fresh(circuit_id, now).has_room_for_success(bytes),
    {
        match self.metrics.get(&circuit_id) {
            Some(m) => m.successful_requests + m.failed_requests < u64::MAX && bytes <= u64::MAX
                - m.bytes_transferred,
            None => true,
        }
    }

    /// Whether one more failure of a circuit can be counted
    pub fn can_record_failure(&self, circuit_id: u64, now: Instant) -> (r: bool)
        requires
            self.wf(),
        ensures
            r == self.metrics_or_fresh(circuit_id, now).has_room_for_failure(),
    {
        match self.metrics.get(&circuit_id) {
            Some(m) => m.successful_requests + m.failed_requests < u64::MAX
                && m.consecutive_failures < u32::MAX,
            None => true,
        }
    }

    /// Get health status for a circuit
    pub fn get_health_status(&self, circuit_id: u64) -> (r: Option<HealthStatus>)
        ensures
            match r {
                Some(s) => self.metrics@.dom().contains(circuit_id) && s
                    == self.metrics@[circuit_id].status,
                None => !self.metrics@.dom().contains(circuit_id),
            },
    {
        match self.metrics.get(&circuit_id) {
            Some(m) => Some(m.status),
            None => None,
        }
    }

    /// Get health score for a circuit
    pub fn get_health_score(&self, circuit_id: u64) -> (r: Option<u8>)
        ensures
            match r {
                Some(s) => self.metrics@.dom().contains(circuit_id) && s
                    == self.metrics@[circuit_id].health_score,
                None => !self.metrics@.dom().contains(circuit_id),
            },
    {
        match self.metrics.get(&circuit_id) {
            Some(m) => Some(m.health_score),
            None => None,
        }
    }

    /// Get full metrics for a circuit
    pub fn get_metrics(&self, circuit_id: u64) -> (r: Option<&CircuitMetrics>)
        ensures
            match r {
                Some(m) => self.metrics@.dom().contains(circuit_id) && *m
                    == self.metrics@[circuit_id],
                None => !self.metrics@.dom().contains(circuit_id),
            },
    {
        self.metrics.get(&circuit_id)
    }

    /// Whether the circuit is known and worn out.
    pub open spec fn wants_rotation(self, circuit_id: u64, now: Instant) -> bool {
        self.metrics@.dom().contains(circuit_id) && worn_out(
            self.config,
            self.metrics@[circuit_id]@,
            now,
        )
    }

    /// Check if circuit needs rotation
    pub fn needs_rotation(&self, circuit_id: u64, now: Instant) -> (r: bool)
        requires
            self.wf(),
        ensures
            r == self.wants_rotation(circuit_id, now),
    {
        match self.metrics.get(&circuit_id) {
            None => false,
            Some(m) => {
                if !m.status.is_usable() {
                    return true;
                }
                if m.should_rotate_due_to_age(self.config.max_circuit_age, now) {
                    return true;
                }
                if m.should_rotate_due_to_usage(
                    self.config.max_bytes_before_rotation,
                    self.config.max_requests_before_rotation,
                ) {
                    return true;
                }
                if m.consecutive_failures >= self.config.max_consecutive_failures {
                    return true;
                }
                if m.idle_time(now).nanos > self.config.idle_timeout.nanos {
                    return true;
                }
                m.failure_rate().exceeds(&self.config.max_failure_rate)
            },
        }
    }

    /// Whether the circuit is known and usable.
    pub open spec fn eligible(self, id: u64) -> bool {
        self.metrics@.dom().contains(id) && self.metrics@[id].status.usable()
    }

    /// Get the healthiest circuit from a list of candidates: the first among
    /// those of the highest score
    pub fn get_healthiest_circuit(&self, candidates: &Vec<u64>) -> (r: Option<u64>)
        requires
            self.wf(),
        ensures
            match r {
                None => forall|i: int|
                    0 <= i < candidates@.len() ==> !self.eligible(#[trigger] candidates@[i]),
                Some(id) => exists|k: int| #[trigger] self.is_healthiest(candidates@, k, id),
            },
    {
        let mut best: Option<u64> = None;
        let mut best_score: u8 = 0;
        let mut i: usize = 0;
        let ghost mut at: int = 0;
        while i < candidates.len()
            invariant
                self.wf(),
                i <= candidates@.len(),
                match best {
                    None => best_score == 0 && forall|k: int|
                        0 <= k < i ==> !self.eligible(#[trigger] candidates@[k]),
                    Some(id) => best_score == self.metrics@[id].health_score
                        && self.is_healthiest(candidates@.take(i as int), at, id),
                },
            decreases candidates@.len() - i,
        {
            let id: u64 = candidates[i];
            match self.metrics.get(&id) {
                Some(m) => {
                    if m.status.is_usable() && m.health_score > best_score {
                        best_score = m.health_score;
                        best = Some(id);
                        proof {
                            at = i as int;
                        }
                    }
                },
                None => {},
            }
            i = i + 1;
            proof {
                let now = candidates@.take(i as int);
                let before = candidates@.take(i - 1);
                assert forall|k: int| 0 <= k < i - 1 implies now[k] == before[k] by {}
                assert(now[i - 1] == id);
                if let Some(b) = best {
                    assert(self.is_healthiest(now, at, b));
                }
            }
        }
        proof {
            assert(candidates@.take(i as int) =~= candidates@);
            if let Some(b) = best {
                assert(self.is_healthiest(candidates@, at, b));
            }
        }
        best
    }

    /// Whether candidate `k` is `id`, is eligible, has no eligible rival of a
    /// higher score, and comes before all others of its score.
    pub open spec fn is_healthiest(self, candidates: Seq<u64>, k: int, id: u64) -> bool {
        &&& 0 <= k < candidates.len()
        &&& candidates[k] == id
        &&& self.eligible(id)
        &&& forall|j: int|
            0 <= j < candidates.len() && self.eligible(#[trigger] candidates[j])
                ==> self.metrics@[candidates[j]].health_score <= self.metrics@[id].health_score
        &&& forall|j: int|
            0 <= j < k && self.eligible(#[trigger] candidates[j])
                ==> self.metrics@[candidates[j]].health_score < self.metrics@[id].health_score
    }

    /// The circuits that meet a wish, each with its score, the best first.
    fn scored_circuits(&self, only_usable: bool) -> (r: Vec<(u64, u8)>)
        ensures
            best_first(r@),
            distinct_ids(r@),
            forall|id: u64, score: u8|
                r@.contains((id, score)) <==> self.metrics@.dom().contains(id)
                    && self.metrics@[id].health_score == score && (only_usable
                    ==> self.metrics@[id].status.usable()),
    {
        let ks = maps::keys(&self.metrics);
        let mut r: Vec<(u64, u8)> = Vec::new();
        let mut i: usize = 0;
        proof {
            maps::lemma_seen_ends(ks@);
        }
        while i < ks.len()
            invariant
                i <= ks@.len(),
                ks@.no_duplicates(),
                ks@.to_set() == self.metrics@.dom(),
                best_first(r@),
                distinct_ids(r@),
                forall|id: u64, score: u8|
                    r@.contains((id, score)) <==> seen(ks@, i as int).contains(id)
                        && self.metrics@[id].health_score == score && (only_usable
                        ==> self.metrics@[id].status.usable()),
            decreases ks@.len() - i,
        {
            proof {
                maps::lemma_seen_next(ks@, i as int);
            }
            let id: u64 = ks[i];
            match self.metrics.get(&id) {
                Some(m) => {
                    if !only_usable || m.status.is_usable() {
                        let ghost before = r@;
                        let score: u8 = m.health_score;
                        maps::insert_scored(&mut r, id, score);
                        proof {
                            let p = choose|p: int|
                                0 <= p <= before.len() && r@ == #[trigger] before.insert(
                                    p,
                                    (id, score),
                                );
                            assert forall|k: int| 0 <= k < before.len() implies (
                            #[trigger] before[k]).0 != id by {
                                assert(before.contains((before[k].0, before[k].1)));
                            }
                            maps::lemma_insert_scored(before, p, (id, score));
                        }
                    }
                },
                None => {},
            }
            i = i + 1;
        }
        proof {
            maps::lemma_seen_ends(ks@);
        }
        r
    }

    /// Get circuits sorted by health score (best first): every usable circuit
    /// once, with its score
    pub fn get_circuits_by_health(&self) -> (r: Vec<(u64, u8)>)
        ensures
            best_first(r@),
            distinct_ids(r@),
            forall|id: u64, score: u8|
                r@.contains((id, score)) <==> self.metrics@.dom().contains(id)
                    && self.metrics@[id].status.usable() && self.metrics@[id].health_score
                    == score,
    {
        self.scored_circuits(true)
    }

    /// Get all unhealthy circuits that should be rotated, each once
    pub fn get_unhealthy_circuits(&self) -> (r: Vec<u64>)
        ensures
            r@.no_duplicates(),
            forall|id: u64| #[trigger]
                r@.contains(id) <==> self.metrics@.dom().contains(id)
                    && !self.metrics@[id].status.usable(),
    {
        let ks = maps::keys(&self.metrics);
        let mut r: Vec<u64> = Vec::new();
        let mut i: usize = 0;
        proof {
            maps::lemma_seen_ends(ks@);
        }
        while i < ks.len()
            invariant
                i <= ks@.len(),
                ks@.no_duplicates(),
                ks@.to_set() == self.metrics@.dom(),
                r@.no_duplicates(),
                forall|id: u64| #[trigger]
                    r@.contains(id) <==> seen(ks@, i as int).contains(id)
                        && !self.metrics@[id].status.usable(),
            decreases ks@.len() - i,
        {
            proof {
                maps::lemma_seen_next(ks@, i as int);
            }
            let id: u64 = ks[i];
            match self.metrics.get(&id) {
                Some(m) => {
                    if !m.status.is_usable() {
                        let ghost before = r@;
                        r.push(id);
                        proof {
                            maps::lemma_push_contains(before, id);
                        }
                    }
                },
                None => {},
            }
            i = i + 1;
        }
        proof {
            maps::lemma_seen_ends(ks@);
        }
        r
    }

    /// The circuits of a status.
    pub open spec fn count_of(self, status: HealthStatus) -> nat {
        count(self.metrics@.dom(), |id: u64| self.metrics@[id].status == status)
    }

    /// The sum of the circuits' average latencies in nanoseconds.
    pub open spec fn total_latency(self) -> int {
        total(
            self.metrics@.dom(),
            |id: u64| average(self.metrics@[id].latency_samples@) * 1_000_000,
        )
    }

    /// The sum of the circuits' bytes.
    pub open spec fn total_bytes(self) -> int {
        total(self.metrics@.dom(), |id: u64| self.metrics@[id].bytes_transferred as int)
    }

    /// Get statistics summary
    pub fn get_statistics(&self) -> (r: HealthStatistics)
        requires
            self.wf(),
            self.metrics@.len() <= u32::MAX,
            self.total_latency() <= u64::MAX,
            self.total_bytes() <= u64::MAX,
        ensures
            r.total_circuits == self.metrics@.len(),
            r.healthy_circuits == self.count_of(HealthStatus::Healthy),
            r.degraded_circuits == self.count_of(HealthStatus::Degraded),
            r.unhealthy_circuits == self.count_of(HealthStatus::Unhealthy),
            r.failed_circuits == self.count_of(HealthStatus::Failed),
            r.average_latency.nanos == (if self.metrics@.len() == 0 {
                0
            } else {
                self.total_latency() / self.metrics@.len() as int
            }),
            r.total_bytes_transferred == self.total_bytes(),
    {
        let ks = maps::keys(&self.metrics);
        let ghost dom = self.metrics@.dom();
        let ghost lat = |id: u64| average(self.metrics@[id].latency_samples@) * 1_000_000;
        let ghost byt = |id: u64| self.metrics@[id].bytes_transferred as int;
        let ghost is_h = |id: u64| self.metrics@[id].status == HealthStatus::Healthy;
        let ghost is_d = |id: u64| self.metrics@[id].status == HealthStatus::Degraded;
        let ghost is_u = |id: u64| self.metrics@[id].status == HealthStatus::Unhealthy;
        let ghost is_f = |id: u64| self.metrics@[id].status == HealthStatus::Failed;
        let mut healthy: usize = 0;
        let mut degraded: usize = 0;
        let mut unhealthy: usize = 0;
        let mut failed: usize = 0;
        let mut total_latency: u64 = 0;
        let mut total_bytes: u64 = 0;
        let mut i: usize = 0;
        proof {
            maps::lemma_seen_ends(ks@);
            maps::lemma_count_empty(is_h);
            maps::lemma_count_empty(is_d);
            maps::lemma_count_empty(is_u);
            maps::lemma_count_empty(is_f);
            ks@.unique_seq_to_set();
        }
        while i < ks.len()
            invariant
                self.wf(),
                i <= ks@.len(),
                ks@.no_duplicates(),
                ks@.to_set() == dom,
                dom == self.metrics@.dom(),
                dom.finite(),
                dom.len() == ks@.len(),
                lat == (|id: u64| average(self.metrics@[id].latency_samples@) * 1_000_000),
                byt == (|id: u64| self.metrics@[id].bytes_transferred as int),
                is_h == (|id: u64| self.metrics@[id].status == HealthStatus::Healthy),
                is_d == (|id: u64| self.metrics@[id].status == HealthStatus::Degraded),
                is_u == (|id: u64| self.metrics@[id].status == HealthStatus::Unhealthy),
                is_f == (|id: u64| self.metrics@[id].status == HealthStatus::Failed),
                total(dom, lat) <= u64::MAX,
                total(dom, byt) <= u64::MAX,
                healthy == count(seen(ks@, i as int), is_h),
                degraded == count(seen(ks@, i as int), is_d),
                unhealthy == count(seen(ks@, i as int), is_u),
                failed == count(seen(ks@, i as int), is_f),
                healthy <= i,
                degraded <= i,
                unhealthy <= i,
                failed <= i,
                total_latency == total(seen(ks@, i as int), lat),
                total_bytes == total(seen(ks@, i as int), byt),
            decreases ks@.len() - i,
        {
            let id: u64 = ks[i];
            proof {
                maps::lemma_seen_next(ks@, i as int);
                let s = seen(ks@, i as int);
                maps::lemma_count_insert(s, id, is_h);
                maps::lemma_count_insert(s, id, is_d);
                maps::lemma_count_insert(s, id, is_u);
                maps::lemma_count_insert(s, id, is_f);
                maps::lemma_total_insert(s, id, lat);
                maps::lemma_total_insert(s, id, byt);
                assert forall|x: u64| #[trigger] lat(x) >= 0 by {
                    lemma_average_is_natural(self.metrics@[x].latency_samples@);
                }
                assert forall|x: u64| #[trigger] byt(x) >= 0 by {}
                assert(s.insert(id).subset_of(dom));
                maps::lemma_total_part(s.insert(id), dom, lat);
                maps::lemma_total_part(s.insert(id), dom, byt);
                maps::lemma_total_part(s, dom, lat);
                maps::lemma_total_part(s, dom, byt);
            }
            match self.metrics.get(&id) {
                Some(m) => {
                    match m.status {
                        HealthStatus::Healthy => {
                            healthy = healthy + 1;
                        },
                        HealthStatus::Degraded => {
                            degraded = degraded + 1;
                        },
                        HealthStatus::Unhealthy => {
                            unhealthy = unhealthy + 1;
                        },
                        HealthStatus::Failed => {
                            failed = failed + 1;
                        },
                    }
                    assert(m.wf());
                    total_latency = total_latency + m.average_latency().nanos;
                    total_bytes = total_bytes + m.bytes_transferred;
                },
                None => {},
            }
            i = i + 1;
        }
        proof {
            maps::lemma_seen_ends(ks@);
        }
        let n: usize = self.metrics.len();
        let average_latency = if n > 0 {
            Duration { nanos: total_latency / n as u64 }
        } else {
            Duration::from_millis(0)
        };
        HealthStatistics {
            total_circuits: n,
            healthy_circuits: healthy,
            degraded_circuits: degraded,
            unhealthy_circuits: unhealthy,
            failed_circuits: failed,
            average_latency,
            total_bytes_transferred: total_bytes,
        }
    }

    /// Update health ranking
    pub fn update_health_ranking(&mut self)
        requires
            old(self).wf(),
        ensures
            final(self).wf(),
            final(self).config == old(self).config,
            final(self).metrics == old(self).metrics,
            ranks(final(self).health_ranking@, final(self).metrics@),
    {
        let scored = self.scored_circuits(false);
        let mut ranking: Vec<u64> = Vec::new();
        let n: usize = scored.len();
        let mut i: usize = 0;
        while i < n
            invariant
                i <= n,
                n == scored@.len(),
                ranking@.len() == i,
                forall|k: int| 0 <= k < i ==> #[trigger] ranking@[k] == scored@[n - 1 - k].0,
            decreases n - i,
        {
            ranking.push(scored[n - 1 - i].0);
            i = i + 1;
        }
        proof {
            let m = self.metrics@;
            assert forall|k: int| 0 <= k < n implies m.dom().contains(#[trigger] ranking@[k])
                && m[ranking@[k]].health_score == scored@[n - 1 - k].1 by {
                let e = scored@[n - 1 - k];
                assert(scored@.contains((e.0, e.1)));
            }
            assert(ranking@.no_duplicates()) by {
                assert forall|a: int, b: int|
                    0 <= a < ranking@.len() && 0 <= b < ranking@.len() && a != b implies ranking@[a]
                    != ranking@[b] by {
                    assert(scored@[n - 1 - a].0 != scored@[n - 1 - b].0);
                }
            }
            assert(ranking@.to_set() =~= m.dom()) by {
                assert forall|id: u64| #[trigger]
                    ranking@.to_set().contains(id) == m.dom().contains(id) by {
                    if m.dom().contains(id) {
                        assert(scored@.contains((id, m[id].health_score)));
                        let k = choose|k: int|
                            0 <= k < scored@.len() && scored@[k] == (id, m[id].health_score);
                        assert(ranking@[n - 1 - k] == id);
                    }
                    if ranking@.contains(id) {
                        let k = choose|k: int| 0 <= k < ranking@.len() && ranking@[k] == id;
                        assert(m.dom().contains(ranking@[k]));
                    }
                }
            }
            assert forall|a: int, b: int| 0 <= a < b < ranking@.len() implies m[#[trigger] ranking@[a]].health_score
                <= m[#[trigger] ranking@[b]].health_score by {
                assert(scored@[n - 1 - b].1 >= scored@[n - 1 - a].1);
            }
        }
        self.health_ranking = ranking;
    }

    /// One cycle of the periodic health check: every circuit is scored anew and
    /// counts as measured now
    pub fn run_health_check(&mut self, now: Instant)
        requires
            old(self).wf(),
        ensures
            final(self).wf(),
            final(self).config == old(self).config,
            final(self).health_ranking == old(self).health_ranking,
            final(self).metrics@.dom() == old(self).metrics@.dom(),
            forall|id: u64| #[trigger]
                final(self).metrics@.dom().contains(id) ==> final(self).metrics@[id]@ == checked(
                    old(self).metrics@[id]@,
                    now,
                ),
    {
        let ks = maps::keys(&self.metrics);
        let ghost dom = self.metrics@.dom();
        let mut i: usize = 0;
        proof {
            maps::lemma_seen_ends(ks@);
        }
        while i < ks.len()
            invariant
                self.wf(),
                old(self).wf(),
                i <= ks@.len(),
                ks@.no_duplicates(),
                ks@.to_set() == dom,
                dom == old(self).metrics@.dom(),
                self.metrics@.dom() == dom,
                self.config == old(self).config,
                self.health_ranking == old(self).health_ranking,
                forall|id: u64|
                    seen(ks@, i as int).contains(id) ==> (#[trigger] self.metrics@[id])@ == checked(
                        old(self).metrics@[id]@,
                        now,
                    ),
                forall|id: u64|
                    dom.contains(id) && !seen(ks@, i as int).contains(id) ==> (
                    #[trigger] self.metrics@[id]) == old(self).metrics@[id],
            decreases ks@.len() - i,
        {
            let id: u64 = ks[i];
            proof {
                maps::lemma_seen_next(ks@, i as int);
                assert(dom.contains(id));
            }
            match self.metrics.remove(&id) {
                Some(mut m) => {
                    m.update_health_score();
                    m.last_measurement = now;
                    self.metrics.insert(id, m);
                },
                None => {},
            }
            assert(self.metrics@.dom() =~= dom);
            i = i + 1;
        }
        proof {
            maps::lemma_seen_ends(ks@);
        }
    }
}

/// Metrics after a health check.
pub open spec fn checked(m: MetricsView, now: Instant) -> MetricsView {
    MetricsView { last_measurement: now, ..m.scored() }
}

proof fn lemma_average_is_natural(s: Seq<Duration>)
    ensures
        average(s) >= 0,
{
    lemma_sums(s);
    if s.len() > 0 {
        vstd::arithmetic::div_mod::lemma_div_pos_is_pos(sum(s), s.len() as int);
    }
}

impl Default for CircuitHealthMonitor {
    fn default() -> (r: CircuitHealthMonitor)
        ensures
            r.wf(),
            r.config == default_health_config(),
            r.metrics@ == Map::<u64, CircuitMetrics>::empty(),
            r.health_ranking@ == Seq::<u64>::empty(),
    {
        Self::new()
    }
}

/// Health statistics summary
#[derive(Debug, Clone, Copy, PartialEq, Eq, Structural)]
pub struct HealthStatistics {
    /// Total number of tracked circuits
    pub total_circuits: usize,
    /// Number of healthy circuits
    pub healthy_circuits: usize,
    /// Number of degraded circuits
    pub degraded_circuits: usize,
    /// Number of unhealthy circuits
    pub unhealthy_circuits: usize,
    /// Number of failed circuits
    pub failed_circuits: usize,
    /// Average latency across all circuits
    pub average_latency: Duration,
    /// Total bytes transferred
    pub total_bytes_transferred: u64,
}

/// Of several candidates at most one is the healthiest: it is usable, no usable one has
/// a higher score, and it comes before all others of its score.
pub proof fn law_one_healthiest_circuit(
    monitor: CircuitHealthMonitor,
    candidates: Seq<u64>,
    k: int,
    id: u64,
    j: int,
)
    requires
        monitor.is_healthiest(candidates, k, id),
    ensures
        forall|m: int, other: u64| #[trigger]
            monitor.is_healthiest(candidates, m, other) ==> m == k && other == id,
        monitor.metrics@.dom().contains(id),
        monitor.metrics@[id].status == HealthStatus::Healthy || monitor.metrics@[id].status
            == HealthStatus::Degraded,
        0 <= j < candidates.len() && monitor.metrics@.dom().contains(candidates[j])
            && monitor.metrics@[candidates[j]].status.usable() ==> monitor.metrics@[id].health_score
            > monitor.metrics@[candidates[j]].health_score || (monitor.metrics@[id].health_score
            == monitor.metrics@[candidates[j]].health_score && k <= j),
{
    assert forall|m: int, other: u64| #[trigger]
        monitor.is_healthiest(candidates, m, other) implies m == k && other == id by {
        assert(monitor.eligible(candidates[m]));
        assert(monitor.eligible(candidates[k]));
    }
    if 0 <= j < candidates.len() {
        assert(monitor.eligible(candidates[j]) || !monitor.eligible(candidates[j]));
    }
}

/// Every circuit has one of the four statuses and is counted once.
pub proof fn law_every_circuit_has_one_status(monitor: CircuitHealthMonitor)
    requires
        monitor.metrics@.dom().finite(),
    ensures
        monitor.count_of(HealthStatus::Healthy) + monitor.count_of(HealthStatus::Degraded)
            + monitor.count_of(HealthStatus::Unhealthy) + monitor.count_of(HealthStatus::Failed)
            == monitor.metrics@.len(),
{
    let m = monitor.metrics@;
    let all = m.dom();
    let a = all.filter(|id: u64| m[id].status == HealthStatus::Healthy);
    let b = all.filter(|id: u64| m[id].status == HealthStatus::Degraded);
    let c = all.filter(|id: u64| m[id].status == HealthStatus::Unhealthy);
    let d = all.filter(|id: u64| m[id].status == HealthStatus::Failed);
    vstd::set_lib::lemma_set_subset_finite(all, a);
    vstd::set_lib::lemma_set_subset_finite(all, b);
    vstd::set_lib::lemma_set_subset_finite(all, c);
    vstd::set_lib::lemma_set_subset_finite(all, d);
    vstd::set_lib::lemma_set_disjoint_lens(a, b);
    vstd::set_lib::lemma_set_disjoint_lens(a + b, c);
    vstd::set_lib::lemma_set_disjoint_lens(a + b + c, d);
    assert(a + b + c + d =~= all);
}

/// The totals of a monitor with one circuit are the figures of that circuit: its
/// average latency in nanoseconds and its bytes.
pub proof fn law_totals_of_one_circuit(monitor: CircuitHealthMonitor, id: u64)
    requires
        monitor.metrics@.dom() == set![id],
    ensures
        monitor.total_latency() == 1_000_000 * average(monitor.metrics@[id].latency_samples@),
        monitor.total_bytes() == monitor.metrics@[id].bytes_transferred,
{
    let lat = |id: u64| average(monitor.metrics@[id].latency_samples@) * 1_000_000;
    let byt = |id: u64| monitor.metrics@[id].bytes_transferred as int;
    maps::lemma_total_remove(set![id], id, lat);
    maps::lemma_total_remove(set![id], id, byt);
    assert(set![id].remove(id) =~= Set::<u64>::empty());
}

/// A health check brings score and status up to date, notes when, and changes nothing
/// else; a second one at the same time changes nothing more.
pub proof fn law_what_a_health_check_does(m: MetricsView, now: Instant)
    ensures
        checked(m, now).health_score == m.score(),
        checked(m, now).last_measurement == now,
        (MetricsView {
            health_score: m.health_score,
            status: m.status,
            last_measurement: m.last_measurement,
            ..checked(m, now)
        }) == m,
        checked(checked(m, now), now) == checked(m, now),
{
}

/// In a ranking the circuit of the lowest score comes first and that of the highest
/// last, and every circuit has its place.
pub proof fn law_order_of_a_ranking(
    ranking: Seq<u64>,
    metrics: Map<u64, CircuitMetrics>,
    id: u64,
)
    requires
        ranks(ranking, metrics),
        metrics.dom().contains(id),
    ensures
        ranking.contains(id),
        metrics[ranking[0]].health_score <= metrics[id].health_score
            <= metrics[ranking.last()].health_score,
{
    assert(ranking.to_set().contains(id));
    let k = choose|k: int| 0 <= k < ranking.len() && ranking[k] == id;
    if 0 < k {
        assert(metrics[ranking[0]].health_score <= metrics[ranking[k]].health_score);
    }
    let n = ranking.len() - 1;
    if k < n {
        assert(metrics[ranking[k]].health_score <= metrics[ranking[n]].health_score);
    }
}

} // verus!
