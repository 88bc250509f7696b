//! Adapters that let a transport report circuit events into a
//! [`CircuitHealthMonitor`] and a [`FailoverManager`].
//!
//! The transport knows circuits by 32-bit numbers and relays by labels. What it
//! observes is four events: a circuit is registered, succeeds, fails, or is
//! unregistered.

use crate::circuit::health::{
    ranks, CircuitHealthMonitor, FailureType as HealthFailure, MetricsView,
};
use crate::failover::{
    FailoverError, FailoverEvent, FailoverManager, FailoverResult, FailureType as FailoverFailure,
    RelayInfo,
};
use crate::maps::except;
use crate::names::NameMap;
use crate::reading::Reading;
use crate::time::{Duration, Instant};
use vstd::prelude::*;
use vstd::string::*;

verus! {

/// The failures that a transport tells apart.
#[derive(Debug, Clone, Copy, PartialEq, Eq, Structural)]
pub enum FailureKind {
    /// The handshake with the first relay failed.
    Handshake,
    /// The circuit could not be extended.
    Extend,
    /// A stream failed.
    Stream,
    /// The circuit was dropped.
    CircuitDrop,
    /// Something else failed.
    Other,
}

/// A failure as the health monitor knows it.
pub open spec fn health_failure(kind: FailureKind) -> HealthFailure {
    match kind {
        FailureKind::Handshake | FailureKind::Stream | FailureKind::CircuitDrop =>
            HealthFailure::ConnectionFailed,
        FailureKind::Extend | FailureKind::Other => HealthFailure::ProtocolError,
    }
}

/// A failure as the failover manager knows it.
pub open spec fn failover_failure(kind: FailureKind) -> FailoverFailure {
    match kind {
        FailureKind::Handshake | FailureKind::CircuitDrop => FailoverFailure::ConnectionFailed,
        FailureKind::Stream => FailoverFailure::Rejected,
        FailureKind::Extend | FailureKind::Other => FailoverFailure::ProtocolError,
    }
}

/// A failure as the health monitor knows it
pub fn classify(kind: FailureKind) -> (r: HealthFailure)
    ensures
        r == health_failure(kind),
{
    match kind {
        FailureKind::Handshake => HealthFailure::ConnectionFailed,
        FailureKind::Extend => HealthFailure::ProtocolError,
        FailureKind::Stream => HealthFailure::ConnectionFailed,
        FailureKind::CircuitDrop => HealthFailure::ConnectionFailed,
        FailureKind::Other => HealthFailure::ProtocolError,
    }
}

/// A failure as the failover manager knows it
pub fn classify_failover(kind: FailureKind) -> (r: FailoverFailure)
    ensures
        r == failover_failure(kind),
{
    match kind {
        FailureKind::Handshake => FailoverFailure::ConnectionFailed,
        FailureKind::Extend => FailoverFailure::ProtocolError,
        FailureKind::Stream => FailoverFailure::Rejected,
        FailureKind::CircuitDrop => FailoverFailure::ConnectionFailed,
        FailureKind::Other => FailoverFailure::ProtocolError,
    }
}

/// Reports circuit events to a [`CircuitHealthMonitor`].
pub struct TransportBridge {
    /// The monitor.
    pub health: CircuitHealthMonitor,
}

impl TransportBridge {
    /// Build a bridge that reports circuit events to the health monitor.
    pub fn new(health: CircuitHealthMonitor) -> (r: TransportBridge)
        ensures
            r.health == health,
    {
        TransportBridge { health }
    }

    /// A circuit is registered
    pub fn register(&mut self, circuit_id: u32, _relay_label: &str, now: Instant)
        requires
            old(self).health.wf(),
        ensures
            final(self).health.wf(),
            old(self).health.changed_only(
                circuit_id as u64,
                MetricsView::fresh(circuit_id as u64, now),
                final(self).health,
            ),
            final(self).health.health_ranking@ == old(self).health.health_ranking@.push(
                circuit_id as u64,
            ),
    {
        self.health.register_circuit(circuit_id as u64, now);
    }

    /// A circuit succeeds; `ewma` is its new moving average
    pub fn record_success(
        &mut self,
        circuit_id: u32,
        latency: Duration,
        bytes: u64,
        ewma: Reading,
        now: Instant,
    )
        requires
            old(self).health.wf(),
            old(self).health.metrics_or_fresh(circuit_id as u64, now).has_room_for_success(bytes),
        ensures
            final(self).health.wf(),
            old(self).health.changed_only(
                circuit_id as u64,
                old(self).health.metrics_or_fresh(circuit_id as u64, now).after_success(
                    latency,
                    bytes,
                    ewma,
                    now,
                ),
                final(self).health,
            ),
            ranks(final(self).health.health_ranking@, final(self).health.metrics@),
    {
        self.health.record_success(circuit_id as u64, latency, bytes, ewma, now);
    }

    /// A circuit fails
    pub fn record_failure(
        &mut self,
        circuit_id: u32,
        kind: FailureKind,
        _reason: &str,
        now: Instant,
    )
        requires
            old(self).health.wf(),
            old(self).health.metrics_or_fresh(circuit_id as u64, now).has_room_for_failure(),
        ensures
            final(self).health.wf(),
            old(self).health.changed_only(
                circuit_id as u64,
                old(self).health.metrics_or_fresh(circuit_id as u64, now).after_failure(now),
                final(self).health,
            ),
            ranks(final(self).health.health_ranking@, final(self).health.metrics@),
    {
        self.health.record_failure(circuit_id as u64, classify(kind), now);
    }

    /// A circuit is unregistered
    pub fn unregister(&mut self, circuit_id: u32)
        requires
            old(self).health.wf(),
        ensures
            final(self).health.wf(),
            final(self).health.config == old(self).health.config,
            final(self).health.metrics@ == old(self).health.metrics@.remove(circuit_id as u64),
            final(self).health.health_ranking@ == except(
                old(self).health.health_ranking@,
                circuit_id as u64,
            ),
    {
        self.health.unregister_circuit(circuit_id as u64);
    }
}

/// Drives a [`FailoverManager`] from the transport's events, and a health
/// monitor as well where there is one.
///
/// A circuit is registered with the failover manager only where its label is
/// known; the health monitor gets the event either way.
pub struct FailoverBridge {
    /// The failover manager.
    pub failover: FailoverManager,
    /// The health monitor, if there is one.
    pub health: Option<CircuitHealthMonitor>,
    /// The relays by their labels.
    pub nickname_map: NameMap<RelayInfo>,
}

/// The relays of a list by their labels; a later one takes the place of an
/// earlier one.
pub open spec fn by_label(entries: Seq<(String, RelayInfo)>) -> Map<Seq<char>, RelayInfo>
    decreases entries.len(),
{
    if entries.len() == 0 {
        Map::empty()
    } else {
        by_label(entries.drop_last()).insert(entries.last().0@, entries.last().1)
    }
}

/// A label stands for the last relay of the list that has it, and for none where no
/// relay does.
pub proof fn law_the_last_of_a_label_counts(entries: Seq<(String, RelayInfo)>, label: Seq<char>)
    ensures
        forall|i: int|
            #![trigger entries[i]]
            0 <= i < entries.len() && entries[i].0@ == label && (forall|j: int|
                i < j < entries.len() ==> (#[trigger] entries[j]).0@ != label) ==> by_label(
                entries,
            ).dom().contains(label) && by_label(entries)[label] == entries[i].1,
        (forall|i: int| 0 <= i < entries.len() ==> (#[trigger] entries[i]).0@ != label)
            ==> !by_label(entries).dom().contains(label),
    decreases entries.len(),
{
    if entries.len() > 0 {
        let less = entries.drop_last();
        let n = entries.len() - 1;
        law_the_last_of_a_label_counts(less, label);
        assert forall|i: int|
            #![trigger entries[i]]
            0 <= i < entries.len() && entries[i].0@ == label && (forall|j: int|
                i < j < entries.len() ==> (#[trigger] entries[j]).0@ != label) implies (by_label(
            entries,
        ).dom().contains(label) && by_label(entries)[label] == entries[i].1) by {
            if i < n {
                assert(less[i] == entries[i]);
                assert forall|j: int| i < j < less.len() implies (
                #[trigger] less[j]).0@ != label by {
                    assert(less[j] == entries[j]);
                }
                assert(entries[n].0@ != label);
            }
        }
        if forall|i: int| 0 <= i < entries.len() ==> (#[trigger] entries[i]).0@ != label {
            assert forall|i: int| 0 <= i < less.len() implies (#[trigger] less[i]).0@ != label by {
                assert(less[i] == entries[i]);
            }
            assert(entries[n].0@ != label);
        }
    }
}

/// A failed extension, and whatever else is not known, is a protocol error to both
/// sides; a handshake or a circuit that broke is a failed connection to both; and a
/// stream that broke is a failed connection to the health monitor and a rejection to
/// the failover manager.
pub proof fn law_what_each_side_hears(kind: FailureKind)
    ensures
        health_failure(kind) == HealthFailure::ProtocolError <==> kind == FailureKind::Extend
            || kind == FailureKind::Other,
        failover_failure(kind) == FailoverFailure::ProtocolError <==> health_failure(kind)
            == HealthFailure::ProtocolError,
        failover_failure(kind) == FailoverFailure::Rejected <==> kind == FailureKind::Stream,
        failover_failure(kind) == FailoverFailure::ConnectionFailed <==> health_failure(kind)
            == HealthFailure::ConnectionFailed && kind != FailureKind::Stream,
        health_failure(kind) == HealthFailure::ConnectionFailed || health_failure(kind)
            == HealthFailure::ProtocolError,
{
}

impl FailoverBridge {
    /// Whether the records are sound.
    pub open spec fn wf(self) -> bool {
        &&& self.failover.wf()
        &&& self.nickname_map.wf()
        &&& self.health matches Some(m) ==> m.wf()
    }

    /// Whether the health monitor, where there is one, has room for a success.
    pub open spec fn has_room_for_success(self, circuit_id: u32, bytes: u64, now: Instant) -> bool {
        &&& self.health matches Some(m) ==> m.metrics_or_fresh(
            circuit_id as u64,
            now,
        ).has_room_for_success(bytes)
        &&& self.failover.active_circuits@.dom().contains(circuit_id)
            ==> self.failover.active_circuits@[circuit_id].bytes_transferred + bytes <= u64::MAX
    }

    /// Whether the health monitor, where there is one, and the failover manager
    /// have room for a failure.
    pub open spec fn has_room_for_failure(self, circuit_id: u32, now: Instant) -> bool {
        &&& self.health matches Some(m) ==> m.metrics_or_fresh(
            circuit_id as u64,
            now,
        ).has_room_for_failure()
        &&& self.failover.active_circuits@.dom().contains(circuit_id)
            ==> self.failover.can_count_failure(
            self.failover.active_circuits@[circuit_id].primary_relay.id@,
        )
    }

    /// Whether the health monitor, where there is one, has new metrics for a
    /// circuit and nothing else.
    pub open spec fn monitored(
        before: FailoverBridge,
        after: FailoverBridge,
        circuit_id: u32,
        metrics: spec_fn(CircuitHealthMonitor) -> MetricsView,
    ) -> bool {
        match before.health {
            Some(m) => after.health matches Some(n) && m.changed_only(
                circuit_id as u64,
                metrics(m),
                n,
            ),
            None => after.health is None,
        }
    }

    /// Build a bridge that forwards events to `failover`.
    pub fn new(failover: FailoverManager) -> (r: FailoverBridge)
        ensures
            r.failover == failover,
            r.health is None,
            r.nickname_map.wf(),
            r.nickname_map@ == Map::<Seq<char>, RelayInfo>::empty(),
    {
        FailoverBridge { failover, health: None, nickname_map: NameMap::new() }
    }

    /// Also forward events to the given health monitor.
    pub fn with_health_monitor(self, health: CircuitHealthMonitor) -> (r: FailoverBridge)
        ensures
            r == (FailoverBridge { health: Some(health), ..self }),
    {
        FailoverBridge {
            failover: self.failover,
            health: Some(health),
            nickname_map: self.nickname_map,
        }
    }

    /// Sets the relays that are known by labels, in place of those before.
    pub fn set_known_relays(&mut self, entries: &[(String, RelayInfo)])
        ensures
            final(self).failover == old(self).failover,
            final(self).health == old(self).health,
            final(self).nickname_map.wf(),
            final(self).nickname_map@ == by_label(entries@),
    {
        self.nickname_map = NameMap::new();
        let mut i: usize = 0;
        while i < entries.len()
            invariant
                i <= entries@.len(),
                self.failover == old(self).failover,
                self.health == old(self).health,
                self.nickname_map.wf(),
                self.nickname_map@ == by_label(entries@.take(i as int)),
            decreases entries@.len() - i,
        {
            assert(entries@.take(i + 1).drop_last() =~= entries@.take(i as int));
            self.nickname_map.insert(entries[i].0.as_str(), entries[i].1.clone());
            i = i + 1;
        }
        assert(entries@.take(i as int) =~= entries@);
    }

    /// The relay with a label, if it is known
    pub fn lookup_relay(&self, nickname: &str) -> (r: Option<RelayInfo>)
        requires
            self.nickname_map.wf(),
        ensures
            r == (if self.nickname_map@.dom().contains(nickname@) {
                Some(self.nickname_map@[nickname@])
            } else {
                None::<RelayInfo>
            }),
    {
        match self.nickname_map.get(nickname) {
            Some(relay) => Some(relay.clone()),
            None => None,
        }
    }

    /// A circuit is registered. Where its relay is known, returns whether the
    /// failover manager's backup pool is to be refilled, and the event to send.
    pub fn register(&mut self, circuit_id: u32, relay_label: &str, now: Instant) -> (r: Option<
        (bool, FailoverEvent),
    >)
        requires
            old(self).wf(),
        ensures
            final(self).wf(),
            final(self).nickname_map == old(self).nickname_map,
            Self::monitored(
                *old(self),
                *final(self),
                circuit_id,
                |m: CircuitHealthMonitor| MetricsView::fresh(circuit_id as u64, now),
            ),
            final(self).health matches Some(m) ==> m.health_ranking@
                == old(self).health->Some_0.health_ranking@.push(circuit_id as u64),
            if old(self).nickname_map@.dom().contains(relay_label@) {
                let relay = old(self).nickname_map@[relay_label@];
                &&& final(self).failover.active_circuits@ == old(self).failover.with_circuit(
                    circuit_id,
                    relay,
                    now,
                )
                &&& final(self).failover.backup_pool@ == old(self).failover.pool_after_pop()
                &&& final(self).failover.failed_relays == old(self).failover.failed_relays
                &&& final(self).failover.same_settings(old(self).failover)
                &&& r == Some(
                    (
                        old(self).failover.runs_low(),
                        FailoverEvent::CircuitCreated { circuit_id, relay_id: relay.id },
                    ),
                )
            } else {
                final(self).failover == old(self).failover && r is None
            },
    {
        match self.health.take() {
            Some(mut m) => {
                m.register_circuit(circuit_id as u64, now);
                self.health = Some(m);
            },
            None => {},
        }
        match self.lookup_relay(relay_label) {
            Some(relay) => Some(self.failover.register_circuit(circuit_id, relay, now)),
            None => None,
        }
    }

    /// A circuit succeeds; `ewma` is its new moving average. The failover
    /// manager hears of it only where bytes were transferred.
    pub fn record_success(
        &mut self,
        circuit_id: u32,
        latency: Duration,
        bytes: u64,
        ewma: Reading,
        now: Instant,
    )
        requires
            old(self).wf(),
            old(self).has_room_for_success(circuit_id, bytes, now),
        ensures
            final(self).wf(),
            final(self).nickname_map == old(self).nickname_map,
            Self::monitored(
                *old(self),
                *final(self),
                circuit_id,
                |m: CircuitHealthMonitor|
                    m.metrics_or_fresh(circuit_id as u64, now).after_success(
                        latency,
                        bytes,
                        ewma,
                        now,
                    ),
            ),
            final(self).health matches Some(m) ==> ranks(m.health_ranking@, m.metrics@),
            final(self).failover.active_circuits@ == (if bytes > 0 {
                old(self).failover.with_activity(circuit_id, bytes, now)
            } else {
                old(self).failover.active_circuits@
            }),
            final(self).failover.backup_pool == old(self).failover.backup_pool,
            final(self).failover.failed_relays == old(self).failover.failed_relays,
            final(self).failover.same_settings(old(self).failover),
    {
        match self.health.take() {
            Some(mut m) => {
                m.record_success(circuit_id as u64, latency, bytes, ewma, now);
                self.health = Some(m);
            },
            None => {},
        }
        if bytes > 0 {
            let _ = self.failover.report_activity(circuit_id, bytes, now);
        }
    }

    /// A circuit fails, where the selector would answer `selection`. That the
    /// failover manager does not know the circuit is no fault: its label was
    /// not known either.
    pub fn record_failure(
        &mut self,
        circuit_id: u32,
        kind: FailureKind,
        _reason: &str,
        selection: Option<RelayInfo>,
        now: Instant,
        events: &mut Vec<FailoverEvent>,
    ) -> (r: Result<FailoverResult, FailoverError>)
        requires
            old(self).wf(),
            old(self).has_room_for_failure(circuit_id, now),
        ensures
            final(self).wf(),
            final(self).nickname_map == old(self).nickname_map,
            Self::monitored(
                *old(self),
                *final(self),
                circuit_id,
                |m: CircuitHealthMonitor|
                    m.metrics_or_fresh(circuit_id as u64, now).after_failure(now),
            ),
            final(self).health matches Some(m) ==> ranks(m.health_ranking@, m.metrics@),
            FailoverManager::reports(
                old(self).failover,
                final(self).failover,
                circuit_id,
                failover_failure(kind),
                selection,
                now,
                r,
                old(events)@,
                final(events)@,
            ),
    {
        match self.health.take() {
            Some(mut m) => {
                m.record_failure(circuit_id as u64, classify(kind), now);
                self.health = Some(m);
            },
            None => {},
        }
        self.failover.report_failure(circuit_id, classify_failover(kind), selection, now, events)
    }

    /// A circuit is unregistered. The failover manager keeps it.
    pub fn unregister(&mut self, circuit_id: u32)
        requires
            old(self).wf(),
        ensures
            final(self).wf(),
            final(self).nickname_map == old(self).nickname_map,
            final(self).failover == old(self).failover,
            match old(self).health {
                Some(m) => final(self).health matches Some(n) && n.metrics@ == m.metrics@.remove(
                    circuit_id as u64,
                ) && n.config == m.config && n.health_ranking@ == except(
                    m.health_ranking@,
                    circuit_id as u64,
                ),
                None => final(self).health is None,
            },
    {
        match self.health.take() {
            Some(mut m) => {
                m.unregister_circuit(circuit_id as u64);
                self.health = Some(m);
            },
            None => {},
        }
    }
}

} // verus!
