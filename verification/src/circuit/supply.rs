//! Running a circuit pool with a builder at hand.
//!
//! These are the pool's operations as a whole: they call the builder between
//! the steps and list the events in the order in which they come about. What a
//! builder answers is its own affair, so each contract says what holds
//! whatever it answers.

use super::health::{
    worn_out, CircuitHealthMonitor, CircuitMetrics, HealthMonitorConfig, MetricsView,
};
use super::pool::{
    in_state, in_use, queue_with, served, AcquireStep, BuildOutcome, CircuitBuilder, CircuitId,
    CircuitPool, CircuitPoolConfig, PoolCircuit, PoolCircuitState, PoolError, PoolEvent,
    PoolFailure, Refill, ReleaseStep, RetireReason, UsageStep,
};
use crate::maps;
use crate::maps::except;
use crate::time::Instant;
use vstd::prelude::*;

verus! {

/// The contents of a [`CircuitPool`].
pub struct PoolView {
    /// Configuration
    pub config: CircuitPoolConfig,
    /// Circuits in the pool
    pub circuits: Map<u64, PoolCircuit>,
    /// Queue of available circuits
    pub queue: Seq<u64>,
    /// Next circuit
    pub next_id: u64,
}

impl View for CircuitPool {
    type V = PoolView;

    open spec fn view(&self) -> PoolView {
        PoolView {
            config: self.config,
            circuits: self.circuits@,
            queue: self.available_queue@,
            next_id: self.next_id,
        }
    }
}

/// A pool, the metrics of its circuits, and what has been told of them.
pub struct Supply {
    /// The pool
    pub pool: PoolView,
    /// The metrics of the circuits
    pub metrics: Map<u64, CircuitMetrics>,
    /// The events so far
    pub events: Seq<PoolEvent>,
}

/// Whether `c` is a circuit that was built at `now` and not used since.
pub open spec fn is_ready(c: PoolCircuit, id: CircuitId, now: Instant) -> bool {
    c.is_new(id, c.path@, PoolCircuitState::Ready, now, Some(now))
}

/// Whether the pool `p1` with the metrics `m1` has come from `p0` with `m0` by
/// building the circuits `new`, in that order, and nothing else. Numbers may
/// have gone to circuits that could not be built; those leave no trace.
pub open spec fn grown(
    p0: PoolView,
    m0: Map<u64, CircuitMetrics>,
    p1: PoolView,
    m1: Map<u64, CircuitMetrics>,
    now: Instant,
    new: Seq<u64>,
) -> bool {
    &&& p1.config == p0.config
    &&& p0.next_id <= p1.next_id
    &&& p1.queue == p0.queue + new
    &&& new.no_duplicates()
    &&& forall|i: int| 0 <= i < new.len() ==> p0.next_id <= #[trigger] new[i] < p1.next_id
    &&& forall|id: u64|
        id < p0.next_id ==> (#[trigger] p1.circuits.dom().contains(id)
            <==> p0.circuits.dom().contains(id))
    &&& forall|id: u64|
        id < p0.next_id && p0.circuits.dom().contains(id) ==> #[trigger] p1.circuits[id]
            == p0.circuits[id]
    &&& forall|id: u64|
        id >= p0.next_id ==> (#[trigger] p1.circuits.dom().contains(id) <==> new.contains(id))
    &&& forall|id: u64| new.contains(id) ==> is_ready(#[trigger] p1.circuits[id], id, now)
    &&& forall|id: u64|
        !(p0.next_id <= id < p1.next_id) ==> (#[trigger] m1.dom().contains(id)
            <==> m0.dom().contains(id))
    &&& forall|id: u64|
        !(p0.next_id <= id < p1.next_id) && m0.dom().contains(id) ==> #[trigger] m1[id] == m0[id]
    &&& forall|id: u64|
        p0.next_id <= id < p1.next_id ==> (#[trigger] m1.dom().contains(id) <==> new.contains(id))
    &&& forall|id: u64|
        new.contains(id) ==> (#[trigger] m1[id])@ == MetricsView::fresh(id, now)
}

proof fn lemma_grown_twice(
    p0: PoolView,
    m0: Map<u64, CircuitMetrics>,
    p1: PoolView,
    m1: Map<u64, CircuitMetrics>,
    p2: PoolView,
    m2: Map<u64, CircuitMetrics>,
    now: Instant,
    first: Seq<u64>,
    second: Seq<u64>,
)
    requires
        grown(p0, m0, p1, m1, now, first),
        grown(p1, m1, p2, m2, now, second),
    ensures
        grown(p0, m0, p2, m2, now, first + second),
{
    let new = first + second;
    assert(p2.queue =~= p0.queue + new);
    assert forall|i: int| 0 <= i < new.len() implies p0.next_id <= #[trigger] new[i]
        < p2.next_id by {
        if i < first.len() {
            assert(new[i] == first[i]);
        } else {
            assert(new[i] == second[i - first.len()]);
        }
    }
    assert(new.no_duplicates()) by {
        assert forall|i: int, j: int|
            0 <= i < new.len() && 0 <= j < new.len() && i != j implies new[i] != new[j] by {
            let n = first.len();
            if i < n && j < n {
                assert(first[i] != first[j]);
            } else if i >= n && j >= n {
                assert(second[i - n] != second[j - n]);
            } else if i < n {
                assert(first[i] < p1.next_id <= second[j - n]);
            } else {
                assert(first[j] < p1.next_id <= second[i - n]);
            }
        }
    }
    assert forall|id: u64| #[trigger] new.contains(id) <==> first.contains(id) || second.contains(
        id,
    ) by {
        if first.contains(id) {
            let i = choose|i: int| 0 <= i < first.len() && first[i] == id;
            assert(new[i] == id);
        }
        if second.contains(id) {
            let i = choose|i: int| 0 <= i < second.len() && second[i] == id;
            assert(new[first.len() + i] == id);
        }
        if new.contains(id) {
            let i = choose|i: int| 0 <= i < new.len() && new[i] == id;
            if i < first.len() {
                assert(first[i] == id);
            } else {
                assert(second[i - first.len()] == id);
            }
        }
    }
    assert forall|id: u64| first.contains(id) implies p0.next_id <= id < p1.next_id by {
        let i = choose|i: int| 0 <= i < first.len() && first[i] == id;
    }
    assert forall|id: u64| second.contains(id) implies p1.next_id <= id < p2.next_id by {
        let i = choose|i: int| 0 <= i < second.len() && second[i] == id;
    }
    assert forall|id: u64| new.contains(id) implies is_ready(#[trigger] p2.circuits[id], id, now) by {
        if first.contains(id) {
            assert(p1.circuits.dom().contains(id));
            assert(p2.circuits[id] == p1.circuits[id]);
        }
    }
    assert forall|id: u64| new.contains(id) implies (#[trigger] m2[id])@ == MetricsView::fresh(
        id,
        now,
    ) by {
        if first.contains(id) {
            assert(m1.dom().contains(id));
            assert(m2[id] == m1[id]);
        }
    }
    assert forall|id: u64| id < p0.next_id && p0.circuits.dom().contains(id) implies
        #[trigger] p2.circuits[id] == p0.circuits[id] by {
        assert(p1.circuits.dom().contains(id));
        assert(p1.circuits[id] == p0.circuits[id]);
    }
    assert forall|id: u64|
        !(p0.next_id <= id < p2.next_id) && m0.dom().contains(id) implies #[trigger] m2[id]
        == m0[id] by {
        assert(m1.dom().contains(id));
        assert(m1[id] == m0[id]);
    }
    assert forall|id: u64| id >= p0.next_id implies (#[trigger] p2.circuits.dom().contains(id)
        <==> new.contains(id)) by {
        assert(p1.circuits.dom().contains(id) == (id >= p0.next_id && first.contains(id)));
    }
    assert forall|id: u64| p0.next_id <= id < p2.next_id implies (#[trigger] m2.dom().contains(id)
        <==> new.contains(id)) by {
        if id < p1.next_id {
            assert(m1.dom().contains(id) <==> first.contains(id));
        }
    }
    assert forall|id: u64| !(p0.next_id <= id < p2.next_id) implies (
    #[trigger] m2.dom().contains(id) <==> m0.dom().contains(id)) by {
        assert(m1.dom().contains(id) <==> m0.dom().contains(id));
    }
    assert forall|id: u64| id < p0.next_id implies (#[trigger] p2.circuits.dom().contains(id)
        <==> p0.circuits.dom().contains(id)) by {
        assert(p1.circuits.dom().contains(id) <==> p0.circuits.dom().contains(id));
    }
}

proof fn lemma_not_grown(p: PoolView, m: Map<u64, CircuitMetrics>, now: Instant)
    requires
        forall|id: u64| #[trigger] p.circuits.dom().contains(id) ==> id < p.next_id,
    ensures
        grown(p, m, p, m, now, Seq::empty()),
{
    assert(p.queue + Seq::<u64>::empty() =~= p.queue);
}

/// A build that failed leaves the circuits as they were.
proof fn lemma_same_circuits(
    p0: PoolView,
    m0: Map<u64, CircuitMetrics>,
    p1: PoolView,
    m1: Map<u64, CircuitMetrics>,
    now: Instant,
)
    requires
        forall|id: u64| #[trigger] p0.circuits.dom().contains(id) ==> id < p0.next_id,
        grown(p0, m0, p1, m1, now, Seq::empty()),
    ensures
        p1.circuits == p0.circuits,
{
    assert forall|id: u64| #[trigger]
        p1.circuits.dom().contains(id) <==> p0.circuits.dom().contains(id) by {
        if p0.circuits.dom().contains(id) {
            assert(id < p0.next_id);
        }
    }
    assert(p1.circuits =~= p0.circuits);
}

/// Whether the circuit is known and worn out.
pub open spec fn worn(
    config: HealthMonitorConfig,
    m: Map<u64, CircuitMetrics>,
    id: u64,
    now: Instant,
) -> bool {
    m.dom().contains(id) && worn_out(config, m[id]@, now)
}

/// What is left of the queue when every worn-out circuit at its front has been
/// dealt with: one that is in the pool is retired and leaves the queue
/// altogether, another is only passed over.
pub open spec fn fit_queue(
    q: Seq<u64>,
    config: HealthMonitorConfig,
    m: Map<u64, CircuitMetrics>,
    held: Set<u64>,
    now: Instant,
) -> Seq<u64>
    decreases q.len(),
{
    if q.len() == 0 || !worn(config, m, q[0], now) {
        q
    } else if held.contains(q[0]) {
        proof {
            maps::lemma_except(q.skip(1), q[0]);
        }
        fit_queue(except(q.skip(1), q[0]), config, m, held, now)
    } else {
        fit_queue(q.skip(1), config, m, held, now)
    }
}

/// The circuits that are retired on the way.
pub open spec fn worn_front(
    q: Seq<u64>,
    config: HealthMonitorConfig,
    m: Map<u64, CircuitMetrics>,
    held: Set<u64>,
    now: Instant,
) -> Set<u64>
    decreases q.len(),
{
    if q.len() == 0 || !worn(config, m, q[0], now) {
        Set::empty()
    } else if held.contains(q[0]) {
        proof {
            maps::lemma_except(q.skip(1), q[0]);
        }
        worn_front(except(q.skip(1), q[0]), config, m, held, now).insert(q[0])
    } else {
        worn_front(q.skip(1), config, m, held, now)
    }
}

/// The circuit that an acquisition finds at hand, if there is one.
pub open spec fn first_fit(
    p: PoolView,
    config: HealthMonitorConfig,
    m: Map<u64, CircuitMetrics>,
    now: Instant,
) -> Option<u64> {
    let queue = fit_queue(p.queue, config, m, p.circuits.dom(), now);
    if queue.len() > 0 {
        Some(queue[0])
    } else {
        None
    }
}

/// The circuit as it was before it was first used.
pub open spec fn unused(c: PoolCircuit) -> PoolCircuit {
    PoolCircuit {
        state: PoolCircuitState::Ready,
        last_used: None,
        use_count: 0,
        is_dirty: false,
        ..c
    }
}

/// Whether the pool `p1` with the metrics `m1` can have come from `p0` with `m0`
/// by an acquisition that gave the circuit `got`. The worn-out circuits at the
/// front of the queue are gone. The circuit is the next in the queue, which it
/// leaves; where there is none, it is one that was built meanwhile. Whatever
/// else there is, was there or was built, and nothing is queued that was not
/// where the queue is not to be filled.
pub open spec fn outlined(
    p0: PoolView,
    config: HealthMonitorConfig,
    m0: Map<u64, CircuitMetrics>,
    now: Instant,
    got: Option<u64>,
    p1: PoolView,
    m1: Map<u64, CircuitMetrics>,
) -> bool {
    let gone = worn_front(p0.queue, config, m0, p0.circuits.dom(), now);
    let queue = fit_queue(p0.queue, config, m0, p0.circuits.dom(), now);
    let kept = PoolView { circuits: p0.circuits.remove_keys(gone), queue, ..p0 };
    let m = m0.remove_keys(gone);
    match got {
        Some(id) => if queue.len() > 0 {
            &&& id == queue[0]
            &&& p0.config.min_pool_size == 0 ==> p1.queue.len() < queue.len()
            &&& grown(
                PoolView {
                    circuits: in_use(kept.circuits, id, now),
                    queue: queue.skip(1),
                    ..kept
                },
                m,
                p1,
                m1,
                now,
                p1.queue.skip(queue.len() - 1),
            )
        } else {
            &&& p1.circuits.dom().contains(id)
            &&& p1.circuits[id] == unused(p1.circuits[id]).used(now)
            &&& p0.config.min_pool_size == 0 ==> p1.queue.len() == 0
            &&& built_and_taken(kept, m, now, id, p1, m1, seq![id] + p1.queue)
        },
        None => queue.len() == 0 && grown(kept, m, p1, m1, now, Seq::empty()),
    }
}

/// How many circuits the queue lacks.
pub open spec fn lacks(p: PoolView) -> int {
    if p.queue.len() < p.config.min_pool_size {
        p.config.min_pool_size - p.queue.len()
    } else {
        0
    }
}

/// Whether `s1` has come from `s0` by a refill. As many circuits are built as the
/// queue lacks, under the next numbers, unless the pool comes to its capacity or
/// a build fails; that ends the refill, and its number is gone.
pub open spec fn refilled(s0: Supply, s1: Supply, now: Instant) -> bool {
    let new = s1.pool.queue.skip(s0.pool.queue.len() as int);
    let failed = s1.pool.next_id > s0.pool.next_id + new.len();
    &&& grown(s0.pool, s0.metrics, s1.pool, s1.metrics, now, new)
    &&& forall|i: int| 0 <= i < new.len() ==> #[trigger] new[i] == s0.pool.next_id + i
    &&& new.len() <= lacks(s0.pool)
    &&& failed ==> s1.pool.next_id == s0.pool.next_id + new.len() + 1
    &&& if new.len() < lacks(s0.pool) {
        failed == (s1.pool.circuits.len() < s1.pool.config.max_pool_size)
    } else {
        !failed
    }
    &&& refill_told(
        s0.events,
        new,
        if failed {
            Some((s1.pool.next_id - 1) as u64)
        } else {
            None
        },
        s1.events,
    )
}

/// Whether `s1` has come from `s0` by retiring a circuit that was in the pool:
/// it is gone, that is told, and the pool is refilled.
pub open spec fn retired_and_refilled(
    s0: Supply,
    circuit_id: CircuitId,
    reason: RetireReason,
    s1: Supply,
    now: Instant,
) -> bool {
    refilled(
        Supply {
            pool: PoolView {
                circuits: s0.pool.circuits.remove(circuit_id),
                queue: except(s0.pool.queue, circuit_id),
                ..s0.pool
            },
            metrics: s0.metrics.remove(circuit_id),
            events: s0.events.push(PoolEvent::CircuitRetired { circuit_id, reason }),
        },
        s1,
        now,
    )
}

/// Whether the circuit was retired where it was in the pool; where it was not,
/// nothing has changed.
pub open spec fn retired_if_there(
    s0: Supply,
    circuit_id: CircuitId,
    reason: RetireReason,
    s1: Supply,
    now: Instant,
) -> bool {
    if s0.pool.circuits.dom().contains(circuit_id) {
        retired_and_refilled(s0, circuit_id, reason, s1, now)
    } else {
        s1 == s0
    }
}

/// Whether `s1` has come from `s0` by taking the worn-out circuit at the front
/// out of the queue and retiring it for its health.
pub open spec fn front_retired(
    s0: Supply,
    config: HealthMonitorConfig,
    now: Instant,
    s1: Supply,
) -> bool {
    &&& s0.pool.queue.len() > 0
    &&& worn(config, s0.metrics, s0.pool.queue[0], now)
    &&& retired_if_there(
        Supply { pool: PoolView { queue: s0.pool.queue.skip(1), ..s0.pool }, ..s0 },
        s0.pool.queue[0],
        RetireReason::HealthCheck,
        s1,
        now,
    )
}

/// Whether `path` leads from `s0` to where no worn-out circuit stands at the
/// front, by retiring one after the other.
pub open spec fn cleared(
    s0: Supply,
    config: HealthMonitorConfig,
    now: Instant,
    path: Seq<Supply>,
) -> bool {
    &&& path.len() > 0
    &&& path[0] == s0
    &&& forall|k: int|
        0 <= k < path.len() - 1 ==> #[trigger] front_retired(path[k], config, now, path[k + 1])
    &&& path.last().pool.queue.len() > 0 ==> !worn(
        config,
        path.last().metrics,
        path.last().pool.queue[0],
        now,
    )
}

/// Whether `s1` has come from `s0` by taking the circuit at the front of the
/// queue, after which the pool is refilled; or, where the queue is empty, by
/// building one, unless the pool is at its capacity.
pub open spec fn handed_out(s0: Supply, now: Instant, got: Option<u64>, s1: Supply) -> bool {
    if s0.pool.queue.len() > 0 {
        let id = s0.pool.queue[0];
        &&& got == Some(id)
        &&& refilled(
            Supply {
                pool: PoolView {
                    circuits: in_use(s0.pool.circuits, id, now),
                    queue: s0.pool.queue.skip(1),
                    ..s0.pool
                },
                metrics: s0.metrics,
                events: s0.events.push(PoolEvent::CircuitAcquired { circuit_id: id }),
            },
            s1,
            now,
        )
    } else {
        let asked = s0.events.push(PoolEvent::PoolEmpty);
        if s0.pool.circuits.len() >= s0.pool.config.max_pool_size {
            got is None && s1 == (Supply { events: asked, ..s0 })
        } else {
            &&& s1.pool.next_id == s0.pool.next_id + 1
            &&& s1.pool.queue == s0.pool.queue
            &&& match got {
                Some(id) => {
                    &&& id == s0.pool.next_id
                    &&& s1.pool.circuits[id] == unused(s1.pool.circuits[id]).used(now)
                    &&& built_and_taken(
                        s0.pool,
                        s0.metrics,
                        now,
                        id,
                        s1.pool,
                        s1.metrics,
                        seq![id],
                    )
                    &&& s1.events == asked.push(PoolEvent::CircuitBuilding { circuit_id: id }).push(
                        PoolEvent::CircuitReady { circuit_id: id },
                    ).push(PoolEvent::CircuitAcquired { circuit_id: id })
                },
                None => {
                    &&& grown(s0.pool, s0.metrics, s1.pool, s1.metrics, now, Seq::empty())
                    &&& failed_build(asked, s0.pool.next_id, s1.events)
                },
            }
        }
    }
}

/// Whether `s1` has come from `s0` by an acquisition that gave the circuit `got`:
/// the worn-out circuits at the front of the queue are retired one after the
/// other, and then a circuit is handed out.
pub open spec fn acquired(
    s0: Supply,
    config: HealthMonitorConfig,
    now: Instant,
    got: Option<u64>,
    s1: Supply,
) -> bool {
    &&& outlined(s0.pool, config, s0.metrics, now, got, s1.pool, s1.metrics)
    &&& exists|path: Seq<Supply>| #[trigger]
        cleared(s0, config, now, path) && handed_out(path.last(), now, got, s1)
}

/// Whether `p1` has come from `p0` by building the circuits `new` and using one
/// of them, `id`.
pub open spec fn built_and_taken(
    p0: PoolView,
    m0: Map<u64, CircuitMetrics>,
    now: Instant,
    id: u64,
    p1: PoolView,
    m1: Map<u64, CircuitMetrics>,
    new: Seq<u64>,
) -> bool {
    grown(
        p0,
        m0,
        PoolView {
            circuits: p1.circuits.insert(id, unused(p1.circuits[id])),
            queue: p0.queue + new,
            ..p1
        },
        m1,
        now,
        new,
    )
}

/// A queue and a circuit that was there before can be exchanged without harm to
/// what was built since.
proof fn lemma_grown_alike(
    p0: PoolView,
    m0: Map<u64, CircuitMetrics>,
    p1: PoolView,
    m1: Map<u64, CircuitMetrics>,
    now: Instant,
    new: Seq<u64>,
    queue: Seq<u64>,
    id: u64,
    c: PoolCircuit,
)
    requires
        grown(p0, m0, p1, m1, now, new),
        id < p0.next_id,
        p0.circuits.dom().contains(id),
    ensures
        grown(
            PoolView { circuits: p0.circuits.insert(id, c), queue, ..p0 },
            m0,
            PoolView { circuits: p1.circuits.insert(id, c), queue: queue + new, ..p1 },
            m1,
            now,
            new,
        ),
{
    let p2 = PoolView { circuits: p0.circuits.insert(id, c), queue, ..p0 };
    let p3 = PoolView { circuits: p1.circuits.insert(id, c), queue: queue + new, ..p1 };
    assert(p1.circuits.dom().contains(id));
    assert forall|x: u64| new.contains(x) implies p0.next_id <= x by {
        let i = choose|i: int| 0 <= i < new.len() && new[i] == x;
    }
    assert forall|x: u64|
        x < p2.next_id && p2.circuits.dom().contains(x) implies #[trigger] p3.circuits[x]
        == p2.circuits[x] by {
        if x != id {
            assert(p1.circuits[x] == p0.circuits[x]);
        }
    }
    assert forall|x: u64| new.contains(x) implies is_ready(#[trigger] p3.circuits[x], x, now) by {
        assert(p3.circuits[x] == p1.circuits[x]);
    }
    assert forall|x: u64| x < p2.next_id implies (#[trigger] p3.circuits.dom().contains(x)
        <==> p2.circuits.dom().contains(x)) by {
        assert(p1.circuits.dom().contains(x) <==> p0.circuits.dom().contains(x));
    }
    assert forall|x: u64| x >= p2.next_id implies (#[trigger] p3.circuits.dom().contains(x)
        <==> new.contains(x)) by {
        assert(p1.circuits.dom().contains(x) <==> new.contains(x));
    }
}

/// Another queue does no harm to what was built.
proof fn lemma_grown_requeued(
    p0: PoolView,
    m0: Map<u64, CircuitMetrics>,
    p1: PoolView,
    m1: Map<u64, CircuitMetrics>,
    now: Instant,
    new: Seq<u64>,
    queue: Seq<u64>,
)
    requires
        grown(p0, m0, p1, m1, now, new),
    ensures
        grown(
            PoolView { queue, ..p0 },
            m0,
            PoolView { queue: queue + new, ..p1 },
            m1,
            now,
            new,
        ),
{
}

/// A circuit that was there before can be taken away from either side.
proof fn lemma_grown_without(
    p0: PoolView,
    m0: Map<u64, CircuitMetrics>,
    p1: PoolView,
    m1: Map<u64, CircuitMetrics>,
    now: Instant,
    new: Seq<u64>,
    id: u64,
)
    requires
        grown(p0, m0, p1, m1, now, new),
        id < p0.next_id,
    ensures
        grown(
            PoolView { circuits: p0.circuits.remove(id), ..p0 },
            m0.remove(id),
            PoolView { circuits: p1.circuits.remove(id), ..p1 },
            m1.remove(id),
            now,
            new,
        ),
{
    let p2 = PoolView { circuits: p0.circuits.remove(id), ..p0 };
    let p3 = PoolView { circuits: p1.circuits.remove(id), ..p1 };
    let m2 = m0.remove(id);
    let m3 = m1.remove(id);
    assert forall|x: u64| new.contains(x) implies p0.next_id <= x by {
        let i = choose|i: int| 0 <= i < new.len() && new[i] == x;
    }
    assert forall|x: u64|
        x < p2.next_id && p2.circuits.dom().contains(x) implies #[trigger] p3.circuits[x]
        == p2.circuits[x] by {
        assert(p1.circuits[x] == p0.circuits[x]);
    }
    assert forall|x: u64| new.contains(x) implies is_ready(#[trigger] p3.circuits[x], x, now) by {
        assert(p3.circuits[x] == p1.circuits[x]);
    }
    assert forall|x: u64| x < p2.next_id implies (#[trigger] p3.circuits.dom().contains(x)
        <==> p2.circuits.dom().contains(x)) by {
        assert(p1.circuits.dom().contains(x) <==> p0.circuits.dom().contains(x));
    }
    assert forall|x: u64| x >= p2.next_id implies (#[trigger] p3.circuits.dom().contains(x)
        <==> new.contains(x)) by {
        assert(p1.circuits.dom().contains(x) <==> new.contains(x));
    }
    assert forall|x: u64| !(p0.next_id <= x < p1.next_id) implies (
    #[trigger] m3.dom().contains(x) <==> m2.dom().contains(x)) by {
        assert(m1.dom().contains(x) <==> m0.dom().contains(x));
    }
    assert forall|x: u64|
        !(p0.next_id <= x < p1.next_id) && m2.dom().contains(x) implies #[trigger] m3[x]
        == m2[x] by {
        assert(m1[x] == m0[x]);
    }
    assert forall|x: u64| p0.next_id <= x < p1.next_id implies (#[trigger] m3.dom().contains(x)
        <==> new.contains(x)) by {
        assert(m1.dom().contains(x) <==> new.contains(x));
    }
    assert forall|x: u64| new.contains(x) implies (#[trigger] m3[x])@ == MetricsView::fresh(
        x,
        now,
    ) by {
        assert(m3[x] == m1[x]);
    }
}

/// Retiring the worn-out circuit at the front, or passing it over, leaves what
/// was built since as it is.
proof fn lemma_front_dealt_with(
    p0: PoolView,
    m0: Map<u64, CircuitMetrics>,
    gone: Set<u64>,
    rest: Seq<u64>,
    new: Seq<u64>,
    now: Instant,
    p1: PoolView,
    m1: Map<u64, CircuitMetrics>,
    p2: PoolView,
    m2: Map<u64, CircuitMetrics>,
) -> (r: (Set<u64>, Seq<u64>, Seq<u64>))
    requires
        rest.len() > 0,
        forall|i: int| 0 <= i < rest.len() ==> #[trigger] rest[i] < p0.next_id,
        forall|i: int| 0 <= i < rest.len() ==> !gone.contains(#[trigger] rest[i]),
        grown(
            PoolView { circuits: p0.circuits.remove_keys(gone), queue: rest, ..p0 },
            m0.remove_keys(gone),
            p1,
            m1,
            now,
            new,
        ),
        if p0.circuits.dom().contains(rest[0]) {
            let id = rest[0];
            let kept = PoolView {
                circuits: p1.circuits.remove(id),
                queue: except(p1.queue.skip(1), id),
                ..p1
            };
            grown(kept, m1.remove(id), p2, m2, now, p2.queue.skip(kept.queue.len() as int))
        } else {
            p2 == (PoolView { queue: p1.queue.skip(1), ..p1 }) && m2 == m1
        },
    ensures
        grown(
            PoolView { circuits: p0.circuits.remove_keys(r.0), queue: r.1, ..p0 },
            m0.remove_keys(r.0),
            p2,
            m2,
            now,
            r.2,
        ),
        r.1.len() < rest.len(),
        forall|i: int| 0 <= i < r.1.len() ==> #[trigger] r.1[i] < p0.next_id,
        forall|i: int| 0 <= i < r.1.len() ==> !r.0.contains(#[trigger] r.1[i]),
        if p0.circuits.dom().contains(rest[0]) {
            r.0 == gone.insert(rest[0]) && r.1 == except(rest.skip(1), rest[0])
        } else {
            r.0 == gone && r.1 == rest.skip(1)
        },
{
    let id = rest[0];
    let base = PoolView { circuits: p0.circuits.remove_keys(gone), queue: rest, ..p0 };
    let m = m0.remove_keys(gone);
    if p0.circuits.dom().contains(id) {
        let left = except(rest.skip(1), id);
        let more = gone.insert(id);
        lemma_grown_without(base, m, p1, m1, now, new, id);
        let base1 = PoolView { circuits: base.circuits.remove(id), ..base };
        let p11 = PoolView { circuits: p1.circuits.remove(id), ..p1 };
        lemma_grown_requeued(base1, m.remove(id), p11, m1.remove(id), now, new, left);
        assert(base.circuits.remove(id) =~= p0.circuits.remove_keys(more));
        assert(m.remove(id) =~= m0.remove_keys(more));
        assert(p1.queue.skip(1) =~= rest.skip(1) + new);
        Seq::filter_distributes_over_add(rest.skip(1), new, maps::other_than(id));
        assert(except(new, id) =~= new) by {
            assert forall|i: int| 0 <= i < new.len() implies #[trigger] new[i] != id by {}
            maps::lemma_except_none(new, id);
        }
        assert(except(p1.queue.skip(1), id) == left + new);
        let kept = PoolView { circuits: p1.circuits.remove(id), queue: left + new, ..p1 };
        let newer = p2.queue.skip((left + new).len() as int);
        lemma_grown_twice(
            PoolView { circuits: p0.circuits.remove_keys(more), queue: left, ..p0 },
            m0.remove_keys(more),
            kept,
            m1.remove(id),
            p2,
            m2,
            now,
            new,
            newer,
        );
        maps::lemma_except(rest.skip(1), id);
        assert forall|i: int| 0 <= i < left.len() implies #[trigger] left[i] < p0.next_id
            && !more.contains(left[i]) by {
            assert(rest.skip(1).contains(left[i]));
            let k = choose|k: int| 0 <= k < rest.skip(1).len() && rest.skip(1)[k] == left[i];
            assert(rest[k + 1] == left[i]);
        }
        (more, left, new + newer)
    } else {
        let left = rest.skip(1);
        lemma_grown_requeued(base, m, p1, m1, now, new, left);
        assert(p1.queue.skip(1) =~= left + new);
        assert forall|i: int| 0 <= i < left.len() implies #[trigger] left[i] < p0.next_id
            && !gone.contains(left[i]) by {
            assert(rest[i + 1] == left[i]);
        }
        (gone, left, new)
    }
}

proof fn lemma_acquired_front(
    p0: PoolView,
    config: HealthMonitorConfig,
    m0: Map<u64, CircuitMetrics>,
    now: Instant,
    gone: Set<u64>,
    rest: Seq<u64>,
    new: Seq<u64>,
    id: u64,
    p1: PoolView,
    m1: Map<u64, CircuitMetrics>,
    p2: PoolView,
    newer: Seq<u64>,
    p3: PoolView,
    m3: Map<u64, CircuitMetrics>,
)
    requires
        gone == worn_front(p0.queue, config, m0, p0.circuits.dom(), now),
        rest == fit_queue(p0.queue, config, m0, p0.circuits.dom(), now),
        rest.len() > 0 ==> rest[0] < p0.next_id,
        p1.queue.len() > 0,
        id == p1.queue[0],
        grown(
            PoolView { circuits: p0.circuits.remove_keys(gone), queue: rest, ..p0 },
            m0.remove_keys(gone),
            p1,
            m1,
            now,
            new,
        ),
        p2 == (PoolView {
            circuits: in_use(p1.circuits, id, now),
            queue: p1.queue.skip(1),
            ..p1
        }),
        grown(p2, m1, p3, m3, now, newer),
        p0.config.min_pool_size == 0 ==> new.len() == 0 && newer.len() == 0,
    ensures
        outlined(p0, config, m0, now, Some(id), p3, m3),
{
    let kept = PoolView { circuits: p0.circuits.remove_keys(gone), queue: rest, ..p0 };
    let m = m0.remove_keys(gone);
    if rest.len() > 0 {
        let taken = PoolView {
            circuits: in_use(kept.circuits, id, now),
            queue: rest.skip(1),
            ..kept
        };
        assert(id == rest[0]);
        assert(p2.queue =~= rest.skip(1) + new);
        assert(p1.circuits.dom().contains(id) <==> kept.circuits.dom().contains(id));
        if kept.circuits.dom().contains(id) {
            assert(p1.circuits[id] == kept.circuits[id]);
            lemma_grown_alike(
                kept,
                m,
                p1,
                m1,
                now,
                new,
                rest.skip(1),
                id,
                kept.circuits[id].used(now),
            );
        } else {
            lemma_grown_requeued(kept, m, p1, m1, now, new, rest.skip(1));
        }
        assert(grown(taken, m, p2, m1, now, new));
        lemma_grown_twice(taken, m, p2, m1, p3, m3, now, new, newer);
        assert(p3.queue.skip(rest.len() - 1) =~= new + newer);
    } else {
        assert(p1.queue =~= new);
        assert(new.contains(new[0]));
        let c = p1.circuits[id];
        assert(p1.circuits.dom().contains(id));
        assert(is_ready(c, id, now));
        assert(p2.circuits.dom().contains(id));
        assert(p3.circuits.dom().contains(id));
        assert(p3.circuits[id] == p2.circuits[id]);
        assert(unused(p3.circuits[id]) == c);
        lemma_grown_alike(p2, m1, p3, m3, now, newer, new, id, c);
        assert(in_use(p1.circuits, id, now).insert(id, c) =~= p1.circuits);
        let p4 = PoolView { circuits: p3.circuits.insert(id, c), queue: new + newer, ..p3 };
        lemma_grown_twice(kept, m, p1, m1, p4, m3, now, new, newer);
        assert(seq![id] + p3.queue =~= new + newer);
        assert(kept.queue + (seq![id] + p3.queue) =~= new + newer);
        assert(built_and_taken(kept, m, now, id, p3, m3, seq![id] + p3.queue));
    }
}

/// An acquired circuit is in the pool. One that was at hand was there before.
pub(crate) proof fn lemma_acquired_holds(
    p0: CircuitPool,
    config: HealthMonitorConfig,
    m0: Map<u64, CircuitMetrics>,
    now: Instant,
    id: u64,
    p1: PoolView,
    m1: Map<u64, CircuitMetrics>,
)
    requires
        p0.wf(),
        outlined(p0@, config, m0, now, Some(id), p1, m1),
    ensures
        p1.circuits.dom().contains(id),
        first_fit(p0@, config, m0, now) matches Some(first) ==> id == first
            && p0.circuits@.dom().contains(id),
{
    let held = p0.circuits@.dom();
    lemma_fit_queue(p0.available_queue@, config, m0, held, now);
    let queue = fit_queue(p0.available_queue@, config, m0, held, now);
    if queue.len() > 0 {
        let i = choose|i: int|
            0 <= i < p0.available_queue@.len() && p0.available_queue@[i] == queue[0];
        assert(queue.contains(queue[0]));
        assert(p0.available_queue@.contains(queue[0]));
        assert(super::pool::may_wait(p0.circuits@, p0.available_queue@[i]));
    }
}

/// An acquisition takes no circuit out of the pool but the worn-out ones at the
/// front of the queue, and leaves the others as they were, but for the one that
/// is handed out, which keeps its path.
pub(crate) proof fn lemma_acquisition_keeps(
    p0: PoolView,
    config: HealthMonitorConfig,
    m0: Map<u64, CircuitMetrics>,
    now: Instant,
    got: Option<u64>,
    p1: PoolView,
    m1: Map<u64, CircuitMetrics>,
)
    requires
        outlined(p0, config, m0, now, got, p1, m1),
    ensures
        p0.next_id <= p1.next_id,
        p1.config == p0.config,
        forall|id: u64|
            id < p0.next_id ==> (#[trigger] p1.circuits.dom().contains(id)
                <==> p0.circuits.dom().contains(id) && !worn_front(
                p0.queue,
                config,
                m0,
                p0.circuits.dom(),
                now,
            ).contains(id)),
        forall|id: u64|
            id < p0.next_id && #[trigger] p1.circuits.dom().contains(id) ==> p1.circuits[id].path
                == p0.circuits[id].path && (got != Some(id) ==> p1.circuits[id]
                == p0.circuits[id]),
{
    let held = p0.circuits.dom();
    let gone = worn_front(p0.queue, config, m0, held, now);
    let queue = fit_queue(p0.queue, config, m0, held, now);
    let m = m0.remove_keys(gone);
    let kept = PoolView { circuits: p0.circuits.remove_keys(gone), queue, ..p0 };
    match got {
        Some(x) => if queue.len() > 0 {
            let used = in_use(kept.circuits, x, now);
            assert forall|id: u64| id < p0.next_id implies (#[trigger] p1.circuits.dom().contains(
                id,
            ) <==> kept.circuits.dom().contains(id)) && (p1.circuits.dom().contains(id)
                ==> p1.circuits[id].path == kept.circuits[id].path && (id != x ==> p1.circuits[id]
                == kept.circuits[id])) by {
                assert(used.dom().contains(id) <==> kept.circuits.dom().contains(id));
                if used.dom().contains(id) {
                    assert(p1.circuits[id] == used[id]);
                }
            }
        } else {
            let new = seq![x] + p1.queue;
            assert(built_and_taken(kept, m, now, x, p1, m1, new));
            let before = PoolView {
                circuits: p1.circuits.insert(x, unused(p1.circuits[x])),
                queue: kept.queue + new,
                ..p1
            };
            assert(new[0] == x);
            assert forall|id: u64| id < p0.next_id implies (#[trigger] p1.circuits.dom().contains(
                id,
            ) <==> kept.circuits.dom().contains(id)) && (p1.circuits.dom().contains(id)
                ==> p1.circuits[id].path == kept.circuits[id].path && (id != x ==> p1.circuits[id]
                == kept.circuits[id])) by {
                assert(before.circuits.dom().contains(id) <==> kept.circuits.dom().contains(id));
                if kept.circuits.dom().contains(id) {
                    assert(before.circuits[id] == kept.circuits[id]);
                }
            }
        },
        None => {},
    }
}

/// What is left of the queue was in it and is none of those that are retired.
proof fn lemma_fit_queue(
    q: Seq<u64>,
    config: HealthMonitorConfig,
    m: Map<u64, CircuitMetrics>,
    held: Set<u64>,
    now: Instant,
)
    ensures
        forall|id: u64| #[trigger]
            fit_queue(q, config, m, held, now).contains(id) ==> q.contains(id) && !worn_front(
                q,
                config,
                m,
                held,
                now,
            ).contains(id),
        forall|id: u64| #[trigger]
            worn_front(q, config, m, held, now).contains(id) ==> q.contains(id) && worn(
                config,
                m,
                id,
                now,
            ) && held.contains(id),
    decreases q.len(),
{
    if q.len() == 0 || !worn(config, m, q[0], now) {
    } else {
        let tail = q.skip(1);
        let left = if held.contains(q[0]) {
            except(tail, q[0])
        } else {
            tail
        };
        maps::lemma_except(tail, q[0]);
        lemma_fit_queue(left, config, m, held, now);
        assert forall|id: u64| left.contains(id) implies q.contains(id) by {
            assert(tail.contains(id));
            let k = choose|k: int| 0 <= k < tail.len() && tail[k] == id;
            assert(q[k + 1] == id);
        }
        assert(q.contains(q[0]));
        assert forall|id: u64| #[trigger]
            fit_queue(q, config, m, held, now).contains(id) implies q.contains(id) && !worn_front(
            q,
            config,
            m,
            held,
            now,
        ).contains(id) by {
            assert(fit_queue(left, config, m, held, now).contains(id));
            assert(left.contains(id));
        }
        assert forall|id: u64| #[trigger]
            worn_front(q, config, m, held, now).contains(id) implies q.contains(id) && worn(
            config,
            m,
            id,
            now,
        ) && held.contains(id) by {
            if id != q[0] {
                assert(worn_front(left, config, m, held, now).contains(id));
            }
        }
    }
}

proof fn lemma_acquired_on_demand(
    p0: PoolView,
    config: HealthMonitorConfig,
    m0: Map<u64, CircuitMetrics>,
    now: Instant,
    gone: Set<u64>,
    id: u64,
    p1: PoolView,
    m1: Map<u64, CircuitMetrics>,
    p2: PoolView,
    m2: Map<u64, CircuitMetrics>,
    p3: PoolView,
)
    requires
        gone == worn_front(p0.queue, config, m0, p0.circuits.dom(), now),
        fit_queue(p0.queue, config, m0, p0.circuits.dom(), now) == Seq::<u64>::empty(),
        grown(
            PoolView {
                circuits: p0.circuits.remove_keys(gone),
                queue: Seq::empty(),
                ..p0
            },
            m0.remove_keys(gone),
            p1,
            m1,
            now,
            Seq::empty(),
        ),
        grown(p1, m1, p2, m2, now, seq![id]),
        p3 == (PoolView { circuits: in_use(p2.circuits, id, now), queue: Seq::empty(), ..p2 }),
    ensures
        outlined(p0, config, m0, now, Some(id), p3, m2),
        p3.circuits[id] == unused(p3.circuits[id]).used(now),
        built_and_taken(p1, m1, now, id, p3, m2, seq![id]),
{
    let none = Seq::<u64>::empty();
    let kept = PoolView { circuits: p0.circuits.remove_keys(gone), queue: none, ..p0 };
    let m = m0.remove_keys(gone);
    lemma_grown_twice(kept, m, p1, m1, p2, m2, now, none, seq![id]);
    assert(none + seq![id] =~= seq![id]);
    assert(seq![id][0] == id);
    assert(seq![id].contains(id));
    assert(p2.circuits.dom().contains(id));
    assert(is_ready(p2.circuits[id], id, now));
    assert(unused(p3.circuits[id]) == p2.circuits[id]);
    assert(p3.circuits.insert(id, p2.circuits[id]) =~= p2.circuits);
    assert(seq![id] + p3.queue =~= seq![id]);
    assert(kept.queue + seq![id] =~= p2.queue);
    assert(p1.queue + seq![id] =~= p2.queue);
    assert(built_and_taken(kept, m, now, id, p3, m2, seq![id] + p3.queue));
}

/// Whether `events` goes on from `before`.
pub open spec fn follows(before: Seq<PoolEvent>, events: Seq<PoolEvent>) -> bool {
    before.len() <= events.len() && events.take(before.len() as int) == before
}

/// The events of the builds of the circuits `new`.
pub open spec fn built_events(new: Seq<u64>) -> Seq<PoolEvent>
    decreases new.len(),
{
    if new.len() == 0 {
        Seq::empty()
    } else {
        built_events(new.drop_last()).push(
            PoolEvent::CircuitBuilding { circuit_id: new.last() },
        ).push(PoolEvent::CircuitReady { circuit_id: new.last() })
    }
}

/// Whether `events` goes on from `before` with a build that failed.
pub open spec fn failed_build(before: Seq<PoolEvent>, id: u64, events: Seq<PoolEvent>) -> bool {
    &&& events.len() == before.len() + 2
    &&& events.drop_last() == before.push(PoolEvent::CircuitBuilding { circuit_id: id })
    &&& events.last() matches PoolEvent::CircuitBuildFailed { circuit_id, .. } && circuit_id == id
}

/// Whether `events` goes on from `before` with the builds of the circuits `new`,
/// the build that `failed`, if one did, and the count of those that did not,
/// if there are any.
pub open spec fn refill_told(
    before: Seq<PoolEvent>,
    new: Seq<u64>,
    failed: Option<u64>,
    events: Seq<PoolEvent>,
) -> bool {
    let built = before + built_events(new);
    let all = if new.len() > 0 {
        events.drop_last()
    } else {
        events
    };
    &&& new.len() > 0 ==> events.len() > 0 && events.last() == (PoolEvent::PoolRefilled {
        count: new.len() as usize,
    })
    &&& match failed {
        Some(id) => failed_build(built, id, all),
        None => all == built,
    }
}

/// The event that a circuit is ready.
pub open spec fn ready_event() -> spec_fn(u64) -> PoolEvent {
    |id: u64| PoolEvent::CircuitReady { circuit_id: id }
}

/// Whether the event is among those that have come since `before`.
pub open spec fn told(before: Seq<PoolEvent>, events: Seq<PoolEvent>, event: PoolEvent) -> bool {
    exists|i: int| before.len() <= i < events.len() && #[trigger] events[i] == event
}

proof fn lemma_refill_follows(
    before: Seq<PoolEvent>,
    new: Seq<u64>,
    failed: Option<u64>,
    events: Seq<PoolEvent>,
)
    requires
        refill_told(before, new, failed, events),
    ensures
        follows(before, events),
{
    let built = before + built_events(new);
    let all = if new.len() > 0 {
        events.drop_last()
    } else {
        events
    };
    assert(built.take(before.len() as int) =~= before);
    if let Some(id) = failed {
        assert(all.take(before.len() as int) =~= all.drop_last().take(before.len() as int));
        assert(all.drop_last().take(before.len() as int) =~= built.take(before.len() as int));
    }
    assert(events.take(before.len() as int) =~= all.take(before.len() as int));
}

pub(crate) proof fn lemma_follows_on(a: Seq<PoolEvent>, b: Seq<PoolEvent>, c: Seq<PoolEvent>)
    requires
        follows(a, b),
        follows(b, c),
    ensures
        follows(a, c),
{
    assert(c.take(a.len() as int) =~= c.take(b.len() as int).take(a.len() as int));
}

proof fn lemma_told_on(
    a: Seq<PoolEvent>,
    b: Seq<PoolEvent>,
    c: Seq<PoolEvent>,
    event: PoolEvent,
)
    requires
        follows(a, b),
        told(a, b, event),
        follows(b, c),
    ensures
        follows(a, c),
        told(a, c, event),
{
    lemma_follows_on(a, b, c);
    let i = choose|i: int| a.len() <= i < b.len() && #[trigger] b[i] == event;
    assert(c.take(b.len() as int)[i] == c[i]);
    assert(c[i] == event);
}

proof fn lemma_tell(a: Seq<PoolEvent>, b: Seq<PoolEvent>, event: PoolEvent)
    requires
        follows(a, b),
    ensures
        follows(a, b.push(event)),
        follows(b, b.push(event)),
        told(a, b.push(event), event),
{
    assert(b.push(event).take(b.len() as int) =~= b);
    lemma_follows_on(a, b, b.push(event));
    assert(b.push(event)[b.len() as int] == event);
}

/// Whether the path is one that the builder may give a circuit.
pub open spec fn may_build<B: CircuitBuilder>(
    builder: &B,
    id: CircuitId,
    path: Vec<String>,
) -> bool {
    call_ensures(B::build_circuit, (builder, id), Ok::<Vec<String>, PoolError>(path))
}

/// Whether the error is one with which the builder may give up a circuit.
pub open spec fn may_give_up<B: CircuitBuilder>(
    builder: &B,
    id: CircuitId,
    why: PoolError,
) -> bool {
    call_ensures(B::build_circuit, (builder, id), Err::<Vec<String>, PoolError>(why))
}

/// Whether the event, where it is that of a failed build, has the words of an
/// error with which the builder may give that circuit up.
pub open spec fn explained<B: CircuitBuilder>(builder: &B, event: PoolEvent) -> bool {
    event matches PoolEvent::CircuitBuildFailed { circuit_id, error } ==> exists|why: PoolError|
     #[trigger]
        may_give_up(builder, circuit_id, why) && error@ == why@.words()
}

/// Whether every failed build that was told of since `before` is explained.
pub open spec fn failures_explained<B: CircuitBuilder>(
    builder: &B,
    before: Seq<PoolEvent>,
    events: Seq<PoolEvent>,
) -> bool {
    forall|i: int| before.len() <= i < events.len() ==> explained(builder, #[trigger] events[i])
}

/// What is explained stays so when more comes.
pub(crate) proof fn lemma_explained_on<B: CircuitBuilder>(
    builder: &B,
    a: Seq<PoolEvent>,
    b: Seq<PoolEvent>,
    c: Seq<PoolEvent>,
)
    requires
        failures_explained(builder, a, b),
        failures_explained(builder, b, c),
        follows(b, c),
    ensures
        failures_explained(builder, a, c),
{
    assert forall|i: int| a.len() <= i < c.len() implies explained(
        builder,
        #[trigger] c[i],
    ) by {
        if i < b.len() {
            assert(c.take(b.len() as int)[i] == c[i]);
            assert(explained(builder, b[i]));
        }
    }
}

/// Whether the builder was told to close the circuit: it gave some answer.
pub open spec fn closed_by<B: CircuitBuilder>(builder: &B, id: CircuitId) -> bool {
    exists|answer: Result<(), PoolError>| #[trigger]
        call_ensures(B::close_circuit, (builder, id), answer)
}

/// Whether the builder has dealt with a number: the circuit in the pool has the
/// path that it gave, and one that is not there was given up.
pub open spec fn dealt_with<B: CircuitBuilder>(builder: &B, id: CircuitId, p: PoolView) -> bool {
    if p.circuits.dom().contains(id) {
        may_build(builder, id, p.circuits[id].path)
    } else {
        exists|why: PoolError| #[trigger] may_give_up(builder, id, why)
    }
}

/// Whether the builder has dealt with every number from `first` on.
pub open spec fn settled<B: CircuitBuilder>(builder: &B, first: u64, p: PoolView) -> bool {
    forall|id: u64| first <= id < p.next_id ==> #[trigger] dealt_with(builder, id, p)
}

/// Whether the builder has built a circuit that is gone from the pool, and was
/// told to close it.
pub open spec fn built_and_closed<B: CircuitBuilder>(
    builder: &B,
    id: CircuitId,
    p: PoolView,
) -> bool {
    &&& !p.circuits.dom().contains(id)
    &&& exists|path: Vec<String>| #[trigger] may_build(builder, id, path)
    &&& closed_by(builder, id)
}

/// Whether the builder has dealt with every number from `first` on, except that
/// those among `retired` may have been built and closed again.
pub open spec fn settled_but_for<B: CircuitBuilder>(
    builder: &B,
    first: u64,
    p: PoolView,
    retired: Set<u64>,
) -> bool {
    settled_between(builder, first, p.next_id, p, retired)
}

/// The same for the numbers from `first` up to `end`.
pub open spec fn settled_between<B: CircuitBuilder>(
    builder: &B,
    first: u64,
    end: u64,
    p: PoolView,
    retired: Set<u64>,
) -> bool {
    forall|id: u64|
        first <= id < end ==> #[trigger] dealt_with(builder, id, p) || (retired.contains(id)
            && built_and_closed(builder, id, p))
}

/// Whether the builder was told to close the worn-out circuits at the front of
/// the queue.
pub open spec fn worn_are_closed<B: CircuitBuilder>(
    builder: &B,
    s: Supply,
    config: HealthMonitorConfig,
    now: Instant,
) -> bool {
    forall|id: u64| #[trigger]
        worn_front(s.pool.queue, config, s.metrics, s.pool.circuits.dom(), now).contains(id)
            ==> closed_by(builder, id)
}

/// Whether `s1` has come from `s0` by filling the pool for the first time. As
/// many circuits are built as the configuration asks for, under the next
/// numbers. The first build that the capacity forbids, or that the builder gives
/// up, ends it with that failure; what was built before is there.
pub open spec fn initialized<B: CircuitBuilder>(
    builder: &B,
    s0: Supply,
    now: Instant,
    failure: Option<PoolFailure>,
    s1: Supply,
) -> bool {
    let new = s1.pool.queue.skip(s0.pool.queue.len() as int);
    let id = (s0.pool.next_id + new.len()) as u64;
    let built = s0.events + built_events(new);
    &&& grown(s0.pool, s0.metrics, s1.pool, s1.metrics, now, new)
    &&& forall|i: int| 0 <= i < new.len() ==> #[trigger] new[i] == s0.pool.next_id + i
    &&& s1.pool.circuits.len() == s0.pool.circuits.len() + new.len()
    &&& settled(builder, s0.pool.next_id, s1.pool)
    &&& match failure {
        None => {
            &&& new.len() == s0.pool.config.pre_build_count
            &&& s1.pool.next_id == id
            &&& s1.events == built
        },
        Some(f) => {
            &&& new.len() < s0.pool.config.pre_build_count
            &&& if s0.pool.circuits.len() + new.len() >= s0.pool.config.max_pool_size {
                &&& f == PoolFailure::PoolAtCapacity
                &&& s1.pool.next_id == id
                &&& s1.events == built
            } else {
                &&& s1.pool.next_id == id + 1
                &&& exists|why: PoolError| #[trigger]
                    may_give_up(builder, id, why) && f == PoolFailure::BuildFailed(why@.words())
                &&& failed_build(built, id, s1.events)
                &&& s1.events.last() matches PoolEvent::CircuitBuildFailed { error, .. } && f
                    == PoolFailure::BuildFailed(error@)
            }
        },
    }
}

/// As many circuits come into the pool as are built.
proof fn lemma_grown_len(
    p0: PoolView,
    m0: Map<u64, CircuitMetrics>,
    p1: PoolView,
    m1: Map<u64, CircuitMetrics>,
    now: Instant,
    new: Seq<u64>,
)
    requires
        p0.circuits.dom().finite(),
        forall|id: u64| #[trigger] p0.circuits.dom().contains(id) ==> id < p0.next_id,
        grown(p0, m0, p1, m1, now, new),
    ensures
        p1.circuits.len() == p0.circuits.len() + new.len(),
{
    let held = p0.circuits.dom();
    assert forall|id: u64| #[trigger] new.contains(id) implies p0.next_id <= id by {
        let i = choose|i: int| 0 <= i < new.len() && new[i] == id;
    }
    assert(p1.circuits.dom() =~= held.union(new.to_set())) by {
        assert forall|id: u64| #[trigger]
            p1.circuits.dom().contains(id) <==> held.union(new.to_set()).contains(id) by {
            if id < p0.next_id {
                assert(p1.circuits.dom().contains(id) <==> held.contains(id));
            }
        }
    }
    new.unique_seq_to_set();
    assert(held.disjoint(new.to_set())) by {
        assert forall|id: u64| held.contains(id) implies !new.to_set().contains(id) by {
            assert(p0.circuits.dom().contains(id));
        }
    }
    vstd::set_lib::lemma_set_disjoint_lens(held, new.to_set());
}

/// What has been settled stays so where the circuits keep their paths.
proof fn lemma_settled_on<B: CircuitBuilder>(builder: &B, first: u64, p0: PoolView, p1: PoolView)
    requires
        settled(builder, first, p0),
        settled(builder, p0.next_id, p1),
        forall|id: u64|
            first <= id < p0.next_id ==> (#[trigger] p1.circuits.dom().contains(id)
                <==> p0.circuits.dom().contains(id)),
        forall|id: u64|
            first <= id < p0.next_id && p0.circuits.dom().contains(id)
                ==> #[trigger] p1.circuits[id].path == p0.circuits[id].path,
    ensures
        settled(builder, first, p1),
{
    assert forall|id: u64| first <= id < p1.next_id implies #[trigger] dealt_with(
        builder,
        id,
        p1,
    ) by {
        if id < p0.next_id {
            assert(dealt_with(builder, id, p0));
            assert(p1.circuits.dom().contains(id) <==> p0.circuits.dom().contains(id));
        }
    }
}

/// What has been settled stays so where circuits are used or queued otherwise.
proof fn lemma_settled_requeued<B: CircuitBuilder>(
    builder: &B,
    first: u64,
    p0: PoolView,
    p1: PoolView,
)
    requires
        settled(builder, first, p0),
        p1.next_id == p0.next_id,
        forall|id: u64| #[trigger]
            p1.circuits.dom().contains(id) <==> p0.circuits.dom().contains(id),
        forall|id: u64| #[trigger]
            p1.circuits.dom().contains(id) ==> p1.circuits[id].path == p0.circuits[id].path,
    ensures
        settled(builder, first, p1),
{
    assert forall|id: u64| first <= id < p1.next_id implies #[trigger] dealt_with(
        builder,
        id,
        p1,
    ) by {
        assert(dealt_with(builder, id, p0));
    }
}

proof fn lemma_path_extended(
    config: HealthMonitorConfig,
    now: Instant,
    path: Seq<Supply>,
    next: Supply,
)
    requires
        path.len() > 0,
        forall|k: int|
            0 <= k < path.len() - 1 ==> #[trigger] front_retired(path[k], config, now, path[k + 1]),
        front_retired(path.last(), config, now, next),
    ensures
        forall|k: int|
            0 <= k < path.push(next).len() - 1 ==> #[trigger] front_retired(
                path.push(next)[k],
                config,
                now,
                path.push(next)[k + 1],
            ),
{
    assert forall|k: int| 0 <= k < path.push(next).len() - 1 implies #[trigger] front_retired(
        path.push(next)[k],
        config,
        now,
        path.push(next)[k + 1],
    ) by {
        if k < path.len() - 1 {
            assert(front_retired(path[k], config, now, path[k + 1]));
        }
    }
}

/// What has been settled stays so when a circuit is retired, but for that one.
pub(crate) proof fn lemma_settled_retired<B: CircuitBuilder>(
    builder: &B,
    first: u64,
    end: u64,
    s0: Supply,
    circuit_id: CircuitId,
    reason: RetireReason,
    s1: Supply,
    now: Instant,
    retired: Set<u64>,
)
    requires
        end <= s0.pool.next_id,
        settled_between(builder, first, end, s0.pool, retired),
        retired_if_there(s0, circuit_id, reason, s1, now),
        circuit_id < end && s0.pool.circuits.dom().contains(circuit_id) ==> closed_by(
            builder,
            circuit_id,
        ),
    ensures
        settled_between(builder, first, end, s1.pool, retired.insert(circuit_id)),
{
    let kept = s0.pool.circuits.remove(circuit_id);
    assert forall|x: u64| first <= x < end implies #[trigger] dealt_with(builder, x, s1.pool) || (
    retired.insert(circuit_id).contains(x) && built_and_closed(builder, x, s1.pool)) by {
        assert(dealt_with(builder, x, s0.pool) || (retired.contains(x) && built_and_closed(
            builder,
            x,
            s0.pool,
        )));
        if s0.pool.circuits.dom().contains(circuit_id) {
            assert(s1.pool.circuits.dom().contains(x) <==> kept.dom().contains(x));
            if kept.dom().contains(x) {
                assert(s1.pool.circuits[x] == kept[x]);
            }
        }
    }
}

/// What has been settled stays so when an older circuit is retired.
pub(crate) proof fn lemma_settled_without_older<B: CircuitBuilder>(
    builder: &B,
    first: u64,
    s0: Supply,
    circuit_id: CircuitId,
    reason: RetireReason,
    s1: Supply,
    now: Instant,
)
    requires
        settled(builder, first, s0.pool),
        retired_if_there(s0, circuit_id, reason, s1, now),
        settled(builder, s0.pool.next_id, s1.pool),
        s0.pool.circuits.dom().contains(circuit_id) ==> closed_by(builder, circuit_id),
        circuit_id < first,
    ensures
        settled(builder, first, s1.pool),
{
    lemma_settled_retired(
        builder,
        first,
        s0.pool.next_id,
        s0,
        circuit_id,
        reason,
        s1,
        now,
        Set::empty(),
    );
}

/// What has been settled stays so when an older circuit is given back.
pub(crate) proof fn lemma_settled_given_back<B: CircuitBuilder>(
    builder: &B,
    first: u64,
    s0: Supply,
    circuit_id: CircuitId,
    s1: Supply,
    now: Instant,
)
    requires
        settled(builder, first, s0.pool),
        given_back(s0, circuit_id, s1, now),
        settled(builder, s0.pool.next_id, s1.pool),
        s0.pool.circuits.dom().contains(circuit_id) && served(
            s0.pool.config,
            s0.pool.circuits[circuit_id],
            now,
        ) ==> closed_by(builder, circuit_id),
        circuit_id < first,
    ensures
        settled(builder, first, s1.pool),
{
    if s0.pool.circuits.dom().contains(circuit_id) && !served(
        s0.pool.config,
        s0.pool.circuits[circuit_id],
        now,
    ) {
        assert forall|x: u64| first <= x < s1.pool.next_id implies #[trigger] dealt_with(
            builder,
            x,
            s1.pool,
        ) by {
            assert(dealt_with(builder, x, s0.pool));
        }
    } else {
        lemma_settled_without_older(
            builder,
            first,
            s0,
            circuit_id,
            RetireReason::UseCount,
            s1,
            now,
        );
    }
}

/// What has been settled stays so over an acquisition, which retires nothing
/// that is fresh.
pub(crate) proof fn lemma_settled_acquired<B: CircuitBuilder>(
    builder: &B,
    first: u64,
    end: u64,
    s0: Supply,
    config: HealthMonitorConfig,
    now: Instant,
    got: Option<u64>,
    s1: Supply,
    retired: Set<u64>,
)
    requires
        end <= s0.pool.next_id,
        settled_between(builder, first, end, s0.pool, retired),
        outlined(s0.pool, config, s0.metrics, now, got, s1.pool, s1.metrics),
        fresh_since(first, s0.pool, s0.metrics, now),
        s0.pool.config.min_pool_size > 0 ==> forall|id: u64|
            !#[trigger] worn_out(config, MetricsView::fresh(id, now), now),
    ensures
        settled_between(builder, first, end, s1.pool, retired),
{
    let held = s0.pool.circuits.dom();
    let gone = worn_front(s0.pool.queue, config, s0.metrics, held, now);
    lemma_acquisition_keeps(s0.pool, config, s0.metrics, now, got, s1.pool, s1.metrics);
    lemma_fit_queue(s0.pool.queue, config, s0.metrics, held, now);
    assert forall|x: u64| first <= x < end implies #[trigger] dealt_with(builder, x, s1.pool) || (
    retired.contains(x) && built_and_closed(builder, x, s1.pool)) by {
        assert(dealt_with(builder, x, s0.pool) || (retired.contains(x) && built_and_closed(
            builder,
            x,
            s0.pool,
        )));
        if gone.contains(x) {
            assert(s0.pool.queue.contains(x));
            let i = choose|i: int| 0 <= i < s0.pool.queue.len() && s0.pool.queue[i] == x;
            assert(!worn_out(config, MetricsView::fresh(s0.pool.queue[i], now), now));
        }
        assert(s1.pool.circuits.dom().contains(x) <==> held.contains(x));
    }
}

/// Whether what is queued with a number from `first` on comes from refills at
/// `now` and has not been used since.
pub open spec fn fresh_since(
    first: u64,
    p: PoolView,
    m: Map<u64, CircuitMetrics>,
    now: Instant,
) -> bool {
    forall|i: int|
        0 <= i < p.queue.len() && first <= #[trigger] p.queue[i] ==> p.config.min_pool_size > 0 && (
        m.dom().contains(p.queue[i]) ==> m[p.queue[i]]@ == MetricsView::fresh(p.queue[i], now))
}

/// What is fresh stays so where the queue is shortened and circuits are built.
proof fn lemma_fresh_grown(
    first: u64,
    p0: PoolView,
    m0: Map<u64, CircuitMetrics>,
    kept: PoolView,
    m: Map<u64, CircuitMetrics>,
    p1: PoolView,
    m1: Map<u64, CircuitMetrics>,
    now: Instant,
    new: Seq<u64>,
)
    requires
        fresh_since(first, p0, m0, now),
        forall|i: int| 0 <= i < p0.queue.len() ==> #[trigger] p0.queue[i] < p0.next_id,
        forall|id: u64| #[trigger] kept.queue.contains(id) ==> p0.queue.contains(id),
        forall|id: u64| #[trigger]
            m.dom().contains(id) ==> m0.dom().contains(id) && m0[id] == m[id],
        kept.next_id == p0.next_id,
        kept.config == p0.config,
        grown(kept, m, p1, m1, now, new),
        p0.config.min_pool_size == 0 ==> new.len() == 0,
    ensures
        fresh_since(first, p1, m1, now),
        forall|i: int| 0 <= i < p1.queue.len() ==> #[trigger] p1.queue[i] < p1.next_id,
{
    assert forall|i: int| 0 <= i < p1.queue.len() implies #[trigger] p1.queue[i] < p1.next_id by {
        if i < kept.queue.len() {
            assert(kept.queue.contains(kept.queue[i]));
            let k = choose|k: int| 0 <= k < p0.queue.len() && p0.queue[k] == kept.queue[i];
            assert(p0.queue[k] < p0.next_id);
        } else {
            assert(new[i - kept.queue.len()] < p1.next_id);
        }
    }
    assert forall|i: int| 0 <= i < p1.queue.len() && first <= #[trigger] p1.queue[i] implies p1.config.min_pool_size
        > 0 && (m1.dom().contains(p1.queue[i]) ==> m1[p1.queue[i]]@ == MetricsView::fresh(
        p1.queue[i],
        now,
    )) by {
        let id = p1.queue[i];
        if i < kept.queue.len() {
            assert(kept.queue[i] == id);
            assert(kept.queue.contains(id));
            let k = choose|k: int| 0 <= k < p0.queue.len() && p0.queue[k] == id;
            assert(p0.queue[k] < p0.next_id);
            assert(m1.dom().contains(id) <==> m.dom().contains(id));
            if m.dom().contains(id) {
                assert(m1[id] == m[id]);
                assert(m0.dom().contains(id) && m0[id] == m[id]);
            }
        } else {
            assert(new[i - kept.queue.len()] == id);
            assert(new.contains(id));
        }
    }
}

/// What is fresh stays so over an acquisition.
pub(crate) proof fn lemma_fresh_acquired(
    first: u64,
    s0: Supply,
    config: HealthMonitorConfig,
    now: Instant,
    got: Option<u64>,
    s1: Supply,
)
    requires
        fresh_since(first, s0.pool, s0.metrics, now),
        forall|i: int| 0 <= i < s0.pool.queue.len() ==> #[trigger] s0.pool.queue[i]
            < s0.pool.next_id,
        outlined(s0.pool, config, s0.metrics, now, got, s1.pool, s1.metrics),
    ensures
        fresh_since(first, s1.pool, s1.metrics, now),
        forall|i: int| 0 <= i < s1.pool.queue.len() ==> #[trigger] s1.pool.queue[i]
            < s1.pool.next_id,
{
    let p0 = s0.pool;
    let p1 = s1.pool;
    let held = p0.circuits.dom();
    let gone = worn_front(p0.queue, config, s0.metrics, held, now);
    let queue = fit_queue(p0.queue, config, s0.metrics, held, now);
    let m = s0.metrics.remove_keys(gone);
    let kept = PoolView { circuits: p0.circuits.remove_keys(gone), queue, ..p0 };
    lemma_fit_queue(p0.queue, config, s0.metrics, held, now);
    if queue.len() > 0 {
        let id = got->0;
        let taken = PoolView {
            circuits: in_use(kept.circuits, id, now),
            queue: queue.skip(1),
            ..kept
        };
        let new = p1.queue.skip(queue.len() - 1);
        assert forall|x: u64| #[trigger] taken.queue.contains(x) implies p0.queue.contains(x) by {
            let k = choose|k: int| 0 <= k < taken.queue.len() && taken.queue[k] == x;
            assert(queue[k + 1] == x);
            assert(queue.contains(x));
        }
        lemma_fresh_grown(first, p0, s0.metrics, taken, m, p1, s1.metrics, now, new);
    } else if let Some(id) = got {
        let new = seq![id] + p1.queue;
        let before = PoolView {
            circuits: p1.circuits.insert(id, unused(p1.circuits[id])),
            queue: kept.queue + new,
            ..p1
        };
        assert(grown(kept, m, before, s1.metrics, now, new));
        assert forall|i: int| 0 <= i < p1.queue.len() implies s1.metrics[#[trigger] p1.queue[i]]@
            == MetricsView::fresh(p1.queue[i], now) by {
            assert(new[i + 1] == p1.queue[i]);
            assert(new.contains(p1.queue[i]));
        }
        assert forall|i: int| 0 <= i < p1.queue.len() implies #[trigger] p1.queue[i]
            < p1.next_id by {
            assert(new[i + 1] < p1.next_id);
        }
    } else {
        assert(p1.queue =~= Seq::<u64>::empty());
    }
}

/// What is fresh stays so when a circuit is retired.
pub(crate) proof fn lemma_fresh_retired(
    first: u64,
    s0: Supply,
    circuit_id: CircuitId,
    reason: RetireReason,
    s1: Supply,
    now: Instant,
)
    requires
        fresh_since(first, s0.pool, s0.metrics, now),
        forall|i: int| 0 <= i < s0.pool.queue.len() ==> #[trigger] s0.pool.queue[i]
            < s0.pool.next_id,
        retired_if_there(s0, circuit_id, reason, s1, now),
    ensures
        fresh_since(first, s1.pool, s1.metrics, now),
{
    if s0.pool.circuits.dom().contains(circuit_id) {
        let kept = PoolView {
            circuits: s0.pool.circuits.remove(circuit_id),
            queue: except(s0.pool.queue, circuit_id),
            ..s0.pool
        };
        maps::lemma_except(s0.pool.queue, circuit_id);
        lemma_fresh_grown(
            first,
            s0.pool,
            s0.metrics,
            kept,
            s0.metrics.remove(circuit_id),
            s1.pool,
            s1.metrics,
            now,
            s1.pool.queue.skip(kept.queue.len() as int),
        );
    }
}

/// The supply that a pool, a monitor and a list of events make up.
pub open spec fn supply(
    pool: CircuitPool,
    monitor: CircuitHealthMonitor,
    events: Seq<PoolEvent>,
) -> Supply {
    Supply { pool: pool@, metrics: monitor.metrics@, events }
}

/// Whether the pool can give out `n` more numbers.
pub open spec fn can_number(p: CircuitPool, n: int) -> bool {
    p.next_id + n <= u64::MAX
}

/// Whether what a refill builds is not worn out at once, where there are refills.
/// An acquisition would retire it and refill the pool for ever.
pub open spec fn refills_last(p: CircuitPool, config: HealthMonitorConfig, now: Instant) -> bool {
    p.config.min_pool_size > 0 ==> forall|id: u64|
        !#[trigger] worn_out(config, MetricsView::fresh(id, now), now)
}

/// How long the queue of a pool can grow in an operation: no longer than it is,
/// than it is to be, or than one.
pub open spec fn at_most(p: CircuitPool) -> int {
    let longer = if p.available_queue@.len() < p.config.min_pool_size {
        p.config.min_pool_size as int
    } else {
        p.available_queue@.len() as int
    };
    if longer < 1 {
        1
    } else {
        longer
    }
}

impl CircuitPool {
    /// An upper bound on the numbers that an acquisition can use up: a refill
    /// for each circuit of the queue and one more, each with one to spare.
    pub open spec fn acquisition_numbers(self) -> int {
        (self.available_queue@.len() + 1) * (self.config.min_pool_size + 1)
    }

    /// Build a new circuit
    pub fn build_circuit<B: CircuitBuilder>(
        &mut self,
        monitor: &mut CircuitHealthMonitor,
        builder: &B,
        now: Instant,
        events: &mut Vec<PoolEvent>,
    ) -> (r: Result<CircuitId, PoolError>)
        requires
            old(self).wf(),
            old(monitor).wf(),
            can_number(*old(self), 1),
        ensures
            final(self).wf(),
            final(monitor).wf(),
            final(monitor).config == old(monitor).config,
            settled(builder, old(self).next_id, final(self)@),
            follows(old(events)@, final(events)@),
            failures_explained(builder, old(events)@, final(events)@),
            match r {
                Ok(id) => {
                    &&& old(self).circuits@.len() < old(self).config.max_pool_size
                    &&& id == old(self).next_id
                    &&& final(self).next_id == old(self).next_id + 1
                    &&& grown(
                        old(self)@,
                        old(monitor).metrics@,
                        final(self)@,
                        final(monitor).metrics@,
                        now,
                        seq![id],
                    )
                    &&& may_build(builder, id, final(self).circuits@[id].path)
                    &&& final(events)@ == old(events)@.push(
                        PoolEvent::CircuitBuilding { circuit_id: id },
                    ).push(PoolEvent::CircuitReady { circuit_id: id })
                },
                Err(e) => if old(self).circuits@.len() >= old(self).config.max_pool_size {
                    &&& e@ == PoolFailure::PoolAtCapacity
                    &&& final(self)@ == old(self)@
                    &&& final(monitor).metrics@ == old(monitor).metrics@
                    &&& final(events)@ == old(events)@
                } else {
                    let id = old(self).next_id;
                    &&& exists|why: PoolError| #[trigger]
                        may_give_up(builder, id, why) && e@ == PoolFailure::BuildFailed(
                            why@.words(),
                        )
                    &&& final(self).next_id == old(self).next_id + 1
                    &&& grown(
                        old(self)@,
                        old(monitor).metrics@,
                        final(self)@,
                        final(monitor).metrics@,
                        now,
                        Seq::empty(),
                    )
                    &&& failed_build(old(events)@, id, final(events)@)
                    &&& final(events)@.last() matches PoolEvent::CircuitBuildFailed { error, .. }
                        && e@ == PoolFailure::BuildFailed(error@)
                },
            },
    {
        match self.admit_build() {
            Err(e) => {
                assert(events@.take(events@.len() as int) =~= events@);
                return Err(e);
            },
            Ok(_) => {},
        }
        let (id, started) = self.begin_build(monitor, now);
        events.push(started);
        assert(!self.available_queue@.contains(id));
        let answer = builder.build_circuit(id);
        let ghost said = answer;
        let ghost middle = events@;
        let outcome = match answer {
            Ok(path) => BuildOutcome::Built(path),
            Err(e) => BuildOutcome::Failed(e.to_string()),
        };
        let (r, ended) = self.finish_build(monitor, id, outcome, now);
        events.push(ended);
        proof {
            assert(events@.take(old(events)@.len() as int) =~= old(events)@);
            let (p0, m0) = (old(self)@, old(monitor).metrics@);
            let (p1, m1) = (self@, monitor.metrics@);
            if r is Ok {
                assert(may_build(builder, id, said->Ok_0));
                let new = seq![id];
                assert(p1.queue =~= p0.queue + new);
                assert(new[0] == id);
                assert forall|x: u64| #[trigger] new.contains(x) <==> x == id by {
                    if new.contains(x) {
                        let i = choose|i: int| 0 <= i < new.len() && new[i] == x;
                    }
                }
                assert forall|x: u64| x != id implies (m0.remove(id).dom().contains(x)
                    <==> #[trigger] m0.dom().contains(x)) by {}
                assert forall|x: u64| x != id && m0.dom().contains(x) implies #[trigger] m1[x]
                    == m0[x] by {
                    assert(m1.remove(id)[x] == m0.remove(id)[x]);
                }
                assert forall|x: u64| x < p0.next_id && p0.circuits.dom().contains(x) implies
                    #[trigger] p1.circuits[x] == p0.circuits[x] by {}
                assert(grown(p0, m0, p1, m1, now, new));
                assert(dealt_with(builder, id, p1));
            } else {
                let why = said->Err_0;
                assert(may_give_up(builder, id, why));
                assert(ended matches PoolEvent::CircuitBuildFailed { circuit_id, error }
                    && circuit_id == id && error@ == why@.words());
                assert(explained(builder, ended));
                assert(dealt_with(builder, id, p1));
                assert(p1.circuits =~= p0.circuits);
                maps::lemma_except_none(p0.queue, id);
                assert(p1.queue + Seq::<u64>::empty() =~= p1.queue);
                assert(p1.queue =~= p0.queue + Seq::<u64>::empty());
                assert forall|x: u64| x != id implies (m1.dom().contains(x)
                    <==> #[trigger] m0.dom().contains(x)) by {}
                assert forall|x: u64| x != id && m0.dom().contains(x) implies #[trigger] m1[x]
                    == m0[x] by {
                    assert(m1.remove(id)[x] == m0.remove(id)[x]);
                }
                assert(grown(p0, m0, p1, m1, now, Seq::empty()));
                assert(events@.drop_last() =~= middle);
            }
        }
        r
    }

    /// Check pool level and refill if needed. A build that fails, or that the
    /// capacity forbids, ends the refill.
    #[verifier::rlimit(30)]
    pub fn check_and_refill<B: CircuitBuilder>(
        &mut self,
        monitor: &mut CircuitHealthMonitor,
        builder: &B,
        now: Instant,
        events: &mut Vec<PoolEvent>,
    )
        requires
            old(self).wf(),
            old(monitor).wf(),
            can_number(*old(self), old(self).shortfall()),
        ensures
            final(self).wf(),
            final(monitor).wf(),
            final(monitor).config == old(monitor).config,
            follows(old(events)@, final(events)@),
            settled(builder, old(self).next_id, final(self)@),
            failures_explained(builder, old(events)@, final(events)@),
            refilled(
                supply(*old(self), *old(monitor), old(events)@),
                supply(*final(self), *final(monitor), final(events)@),
                now,
            ),
    {
        let mut run = Refill::new(self.refill_needed());
        let ghost p0 = self@;
        let ghost m0 = monitor.metrics@;
        let ghost needed = self.shortfall();
        let ghost mut new: Seq<u64> = Seq::empty();
        proof {
            lemma_not_grown(p0, m0, now);
            assert(old(events)@ + built_events(new) =~= old(events)@);
        }
        while run.left > 0
            invariant
                self.wf(),
                monitor.wf(),
                monitor.config == old(monitor).config,
                p0 == old(self)@,
                m0 == old(monitor).metrics@,
                needed == old(self).shortfall(),
                can_number(*old(self), needed),
                settled(builder, p0.next_id, self@),
                failures_explained(builder, old(events)@, events@),
                old(events)@.len() <= events@.len(),
                forall|i: int| 0 <= i < new.len() ==> #[trigger] new[i] == p0.next_id + i,
                self.next_id > p0.next_id + new.len() ==> new.len() < needed && self@.circuits.len()
                    < self.config.max_pool_size && run.left == 0,
                run.built == new.len(),
                run.left + run.built <= needed,
                needed <= usize::MAX,
                grown(p0, m0, self@, monitor.metrics@, now, new),
                self.next_id <= p0.next_id + needed,
                run.left > 0 ==> run.left + run.built == needed && self.next_id == p0.next_id
                    + run.built,
                new.len() < needed ==> run.left > 0 || self@.circuits.len()
                    >= self.config.max_pool_size || self.next_id == p0.next_id + new.len() + 1,
                p0.next_id + new.len() <= self.next_id <= p0.next_id + new.len() + 1,
                if self.next_id > p0.next_id + new.len() {
                    failed_build(
                        old(events)@ + built_events(new),
                        (self.next_id - 1) as u64,
                        events@,
                    )
                } else {
                    events@ == old(events)@ + built_events(new)
                },
            decreases run.left,
        {
            let ghost pm = self@;
            let ghost mm = monitor.metrics@;
            let ghost newer = new;
            assert(forall|x: u64| #[trigger] pm.circuits.dom().contains(x) ==> x < pm.next_id) by {
                assert(forall|x: u64| #[trigger]
                    self.circuits@.dom().contains(x) ==> x < self.next_id);
            }
            let ghost before = events@;
            let built = self.build_circuit(monitor, builder, now, events);
            proof {
                lemma_explained_on(builder, old(events)@, before, events@);
                match built {
                    Ok(id) => {
                        lemma_grown_twice(
                            p0,
                            m0,
                            pm,
                            mm,
                            self@,
                            monitor.metrics@,
                            now,
                            new,
                            seq![id],
                        );
                        new = new + seq![id];
                        lemma_settled_on(builder, p0.next_id, pm, self@);
                    },
                    Err(_) => {
                        if pm.circuits.len() < pm.config.max_pool_size {
                            lemma_same_circuits(pm, mm, self@, monitor.metrics@, now);
                            lemma_settled_on(builder, p0.next_id, pm, self@);
                            lemma_grown_twice(
                                p0,
                                m0,
                                pm,
                                mm,
                                self@,
                                monitor.metrics@,
                                now,
                                new,
                                Seq::empty(),
                            );
                            assert(new + Seq::<u64>::empty() =~= new);
                        }
                    },
                }
                if let Ok(id) = built {
                    assert(new.drop_last() =~= newer);
                    assert(events@ =~= old(events)@ + built_events(new));
                }
            }
            run.record(built.is_ok());
        }
        let ghost before = events@;
        match run.event() {
            Some(e) => {
                events.push(e);
            },
            None => {},
        }
        proof {
            assert(self@.queue.skip(p0.queue.len() as int) =~= new);
            if new.len() > 0 {
                assert(events@.drop_last() =~= before);
            }
            lemma_refill_follows(
                old(events)@,
                new,
                if self.next_id > old(self).next_id + new.len() {
                    Some((self.next_id - 1) as u64)
                } else {
                    None
                },
                events@,
            );
        }
    }

    /// Retire a circuit: close it and refill the pool
    pub fn retire_circuit<B: CircuitBuilder>(
        &mut self,
        monitor: &mut CircuitHealthMonitor,
        builder: &B,
        circuit_id: CircuitId,
        reason: RetireReason,
        now: Instant,
        events: &mut Vec<PoolEvent>,
    ) -> (r: Result<(), PoolError>)
        requires
            old(self).wf(),
            old(monitor).wf(),
            can_number(*old(self), old(self).config.min_pool_size as int),
        ensures
            final(self).wf(),
            final(monitor).wf(),
            final(monitor).config == old(monitor).config,
            old(self).next_id <= final(self).next_id <= old(self).next_id + old(
                self,
            ).config.min_pool_size,
            final(self).config == old(self).config,
            final(self)@.queue.len() <= at_most(*old(self)),
            retired_if_there(
                supply(*old(self), *old(monitor), old(events)@),
                circuit_id,
                reason,
                supply(*final(self), *final(monitor), final(events)@),
                now,
            ),
            settled(builder, old(self).next_id, final(self)@),
            follows(old(events)@, final(events)@),
            failures_explained(builder, old(events)@, final(events)@),
            if old(self).circuits@.dom().contains(circuit_id) {
                &&& r is Ok
                &&& closed_by(builder, circuit_id)
                &&& follows(
                    old(events)@.push(PoolEvent::CircuitRetired { circuit_id, reason }),
                    final(events)@,
                )
            } else {
                &&& r matches Err(e) && e@ == PoolFailure::CircuitNotFound(circuit_id)
                &&& final(events)@ == old(events)@
            },
    {
        proof {
            maps::lemma_except(self.available_queue@, circuit_id);
        }
        assert(events@.take(events@.len() as int) =~= events@);
        match self.begin_retire(monitor, circuit_id, reason) {
            Err(e) => Err(e),
            Ok(event) => {
                let answer = builder.close_circuit(circuit_id);
                assert(call_ensures(B::close_circuit, (builder, circuit_id), answer));
                events.push(event);
                let ghost said = events@;
                self.check_and_refill(monitor, builder, now, events);
                proof {
                    lemma_explained_on(builder, old(events)@, said, events@);
                    lemma_tell(old(events)@, old(events)@, event);
                    lemma_follows_on(old(events)@, said, events@);
                }
                Ok(())
            },
        }
    }

    /// Get a circuit from the pool.
    ///
    /// The first circuit in the queue that is not worn out is the one; the
    /// worn-out ones before it are retired. Where there is none, one is built.
    #[verifier::rlimit(60)]
    pub fn acquire_circuit<B: CircuitBuilder>(
        &mut self,
        monitor: &mut CircuitHealthMonitor,
        builder: &B,
        now: Instant,
        events: &mut Vec<PoolEvent>,
    ) -> (r: Result<CircuitId, PoolError>)
        requires
            old(self).wf(),
            old(monitor).wf(),
            old(self).usable_count(),
            refills_last(*old(self), old(monitor).config, now),
            can_number(*old(self), old(self).acquisition_numbers()),
        ensures
            final(self).wf(),
            final(monitor).wf(),
            final(monitor).config == old(monitor).config,
            final(self).config == old(self).config,
            acquired(
                supply(*old(self), *old(monitor), old(events)@),
                old(monitor).config,
                now,
                r.ok(),
                supply(*final(self), *final(monitor), final(events)@),
            ),
            settled(builder, old(self).next_id, final(self)@),
            failures_explained(builder, old(events)@, final(events)@),
            worn_are_closed(
                builder,
                supply(*old(self), *old(monitor), old(events)@),
                old(monitor).config,
                now,
            ),
            r matches Err(e) ==> e@ == PoolFailure::PoolEmpty,
            final(self)@.queue.len() <= at_most(*old(self)),
            old(self).next_id <= final(self).next_id <= old(self).next_id + old(
                self,
            ).acquisition_numbers(),
            follows(old(events)@, final(events)@),
            match r {
                Ok(id) => told(
                    old(events)@,
                    final(events)@,
                    PoolEvent::CircuitAcquired { circuit_id: id },
                ),
                Err(_) => told(old(events)@, final(events)@, PoolEvent::PoolEmpty),
            },
    {
        let ghost config = monitor.config;
        let ghost p0 = self@;
        let ghost m0 = monitor.metrics@;
        let ghost held = p0.circuits.dom();
        let ghost step = self.config.min_pool_size + 1;
        let ghost mut rest = p0.queue;
        let ghost mut gone: Set<u64> = Set::empty();
        let ghost mut new: Seq<u64> = Seq::empty();
        let ghost s0 = supply(*self, *monitor, events@);
        let ghost mut path: Seq<Supply> = seq![s0];
        proof {
            assert(p0.circuits.remove_keys(gone) =~= p0.circuits);
            assert(m0.remove_keys(gone) =~= m0);
            lemma_not_grown(p0, m0, now);
            assert(worn_front(rest, config, m0, held, now).union(gone) =~= worn_front(
                rest,
                config,
                m0,
                held,
                now,
            ));
            assert(events@.take(events@.len() as int) =~= events@);
        }
        loop
            invariant
                self.wf(),
                monitor.wf(),
                self.usable_count(),
                monitor.config == config,
                config == old(monitor).config,
                p0 == old(self)@,
                m0 == old(monitor).metrics@,
                held == p0.circuits.dom(),
                self.config == p0.config,
                step == self.config.min_pool_size + 1,
                s0 == supply(*old(self), *old(monitor), old(events)@),
                path.len() > 0,
                path[0] == s0,
                path.last() == supply(*self, *monitor, events@),
                forall|k: int|
                    0 <= k < path.len() - 1 ==> #[trigger] front_retired(
                        path[k],
                        config,
                        now,
                        path[k + 1],
                    ),
                settled(builder, p0.next_id, self@),
                failures_explained(builder, old(events)@, events@),
                forall|id: u64| #[trigger] gone.contains(id) ==> closed_by(builder, id),
                refills_last(*old(self), config, now),
                p0.config.min_pool_size == 0 ==> new.len() == 0,
                forall|id: u64| #[trigger] p0.circuits.dom().contains(id) ==> id < p0.next_id,
                grown(
                    PoolView { circuits: p0.circuits.remove_keys(gone), queue: rest, ..p0 },
                    m0.remove_keys(gone),
                    self@,
                    monitor.metrics@,
                    now,
                    new,
                ),
                forall|i: int| 0 <= i < rest.len() ==> #[trigger] rest[i] < p0.next_id,
                forall|i: int| 0 <= i < rest.len() ==> !gone.contains(#[trigger] rest[i]),
                fit_queue(rest, config, m0, held, now) == fit_queue(
                    p0.queue,
                    config,
                    m0,
                    held,
                    now,
                ),
                worn_front(rest, config, m0, held, now).union(gone) == worn_front(
                    p0.queue,
                    config,
                    m0,
                    held,
                    now,
                ),
                self@.queue.len() <= at_most(*old(self)),
                self.next_id + (rest.len() + 1) * step <= p0.next_id
                    + old(self).acquisition_numbers() <= u64::MAX,
                follows(old(events)@, events@),
            decreases rest.len(),
        {
            let ghost p1 = self@;
            let ghost m1 = monitor.metrics@;
            proof {
                assert((rest.len() + 1) * step >= step) by (nonlinear_arith)
                    requires
                        rest.len() >= 0,
                        step > 0,
                ;
                if rest.len() > 0 {
                    let id = rest[0];
                    assert(p1.queue[0] == id);
                    assert(m1.dom().contains(id) <==> m0.remove_keys(gone).dom().contains(id));
                    assert(worn(config, m1, id, now) == worn(config, m0, id, now));
                    assert(p1.circuits.dom().contains(id) <==> p0.circuits.remove_keys(
                        gone,
                    ).dom().contains(id));
                } else if new.len() > 0 {
                    assert(p1.queue =~= new);
                    assert(new.contains(new[0]));
                    assert(m1.dom().contains(new[0]) <==> new.contains(new[0]));
                    assert(!worn_out(config, MetricsView::fresh(new[0], now), now));
                } else {
                    assert(p1.queue =~= rest);
                }
            }
            match self.next_acquire_step(monitor, now) {
                AcquireStep::Retire(id) => {
                    let ghost before = events@;
                    let ghost mid = self@;
                    assert(worn(config, m1, id, now));
                    let _ = self.retire_circuit(
                        monitor,
                        builder,
                        id,
                        RetireReason::HealthCheck,
                        now,
                        events,
                    );
                    proof {
                        lemma_explained_on(builder, old(events)@, before, events@);
                        lemma_follows_on(old(events)@, before, events@);
                        assert(rest.len() > 0);
                        let (more, left, newer) = lemma_front_dealt_with(
                            p0,
                            m0,
                            gone,
                            rest,
                            new,
                            now,
                            p1,
                            m1,
                            self@,
                            monitor.metrics@,
                        );
                        assert(worn_front(left, config, m0, held, now).union(more) =~= worn_front(
                            rest,
                            config,
                            m0,
                            held,
                            now,
                        ).union(gone));
                        assert((left.len() + 1) * step + step <= (rest.len() + 1) * step)
                            by (nonlinear_arith)
                            requires
                                left.len() + 1 <= rest.len(),
                                step > 0,
                        ;
                        let here = supply(*self, *monitor, events@);
                        assert(front_retired(path.last(), config, now, here));
                        lemma_path_extended(config, now, path, here);
                        path = path.push(here);
                        lemma_settled_requeued(builder, p0.next_id, p1, mid);
                        lemma_settled_without_older(
                            builder,
                            p0.next_id,
                            Supply { pool: mid, metrics: m1, events: before },
                            id,
                            RetireReason::HealthCheck,
                            here,
                            now,
                        );
                        if p0.config.min_pool_size == 0 {
                            assert(p1.queue =~= rest);
                            assert(mid.queue =~= rest.skip(1));
                            assert(newer.len() == 0);
                        }
                        rest = left;
                        gone = more;
                        new = newer;
                        assert forall|x: u64| #[trigger]
                            self.circuits@.dom().contains(x) implies self.circuits@[x].use_count
                            < u64::MAX by {
                            assert(self@.circuits.dom().contains(x));
                            if x < p1.next_id && p1.circuits.dom().contains(x) {
                                assert(self@.circuits[x].use_count < u64::MAX);
                            } else {
                                assert(self@.circuits[x].use_count == 0);
                            }
                        }
                    }
                },
                AcquireStep::Acquired(id) => {
                    let ghost p2 = self@;
                    let ghost event = PoolEvent::CircuitAcquired { circuit_id: id };
                    proof {
                        lemma_tell(old(events)@, events@, event);
                    }
                    events.push(PoolEvent::CircuitAcquired { circuit_id: id });
                    let ghost said = events@;
                    self.check_and_refill(monitor, builder, now, events);
                    proof {
                        assert(cleared(s0, config, now, path));
                        assert(handed_out(
                            path.last(),
                            now,
                            Some(id),
                            supply(*self, *monitor, events@),
                        ));
                        lemma_settled_requeued(builder, p0.next_id, p1, p2);
                        lemma_settled_on(builder, p0.next_id, p2, self@);
                        lemma_told_on(old(events)@, said, events@, event);
                        lemma_explained_on(builder, old(events)@, said, events@);
                        let newer = self@.queue.skip(p2.queue.len() as int);
                        assert(worn_front(rest, config, m0, held, now) =~= Set::empty());
                        assert(worn_front(rest, config, m0, held, now).union(gone) =~= gone);
                        lemma_acquired_front(
                            p0,
                            config,
                            m0,
                            now,
                            gone,
                            rest,
                            new,
                            id,
                            p1,
                            m1,
                            p2,
                            newer,
                            self@,
                            monitor.metrics@,
                        );
                    }
                    return Ok(id);
                },
                AcquireStep::Empty => {
                    proof {
                        lemma_tell(old(events)@, events@, PoolEvent::PoolEmpty);
                    }
                    events.push(PoolEvent::PoolEmpty);
                    let ghost asked = events@;
                    assert(rest =~= Seq::<u64>::empty() && new =~= Seq::<u64>::empty());
                    let built = self.build_circuit(monitor, builder, now, events);
                    proof {
                        assert(cleared(s0, config, now, path));
                        lemma_settled_on(builder, p0.next_id, p1, self@);
                        lemma_explained_on(builder, old(events)@, asked, events@);
                        assert(worn_front(rest, config, m0, held, now).union(gone) =~= gone);
                        if let Ok(id) = built {
                            assert(seq![id].contains(id)) by {
                                assert(seq![id][0] == id);
                            }
                            assert(self@.circuits.dom().contains(id));
                            let starting = PoolEvent::CircuitBuilding { circuit_id: id };
                            let ready = PoolEvent::CircuitReady { circuit_id: id };
                            lemma_tell(old(events)@, asked, starting);
                            lemma_tell(old(events)@, asked.push(starting), ready);
                        } else if p1.circuits.len() < p1.config.max_pool_size {
                            assert(events@.take(asked.len() as int) =~= asked) by {
                                assert(events@.drop_last().take(asked.len() as int) =~= asked);
                            }
                            lemma_told_on(old(events)@, asked, events@, PoolEvent::PoolEmpty);
                            let none = Seq::<u64>::empty();
                            lemma_grown_twice(
                                PoolView {
                                    circuits: p0.circuits.remove_keys(gone),
                                    queue: rest,
                                    ..p0
                                },
                                m0.remove_keys(gone),
                                p1,
                                m1,
                                self@,
                                monitor.metrics@,
                                now,
                                none,
                                none,
                            );
                            assert(none + none =~= none);
                        }
                    }
                    let ghost p2 = self@;
                    let ghost said = events@;
                    match self.acquire_built(built, now) {
                        Ok((id, event)) => {
                            proof {
                                lemma_tell(old(events)@, said, event);
                                assert(p2.queue =~= seq![id]);
                                maps::lemma_except(p2.queue, id);
                                assert(self@.queue =~= Seq::<u64>::empty()) by {
                                    if self@.queue.len() > 0 {
                                        assert(p2.queue.contains(except(p2.queue, id)[0]));
                                    }
                                }
                                lemma_acquired_on_demand(
                                    p0,
                                    config,
                                    m0,
                                    now,
                                    gone,
                                    id,
                                    p1,
                                    m1,
                                    p2,
                                    monitor.metrics@,
                                    self@,
                                );
                            }
                            events.push(event);
                            proof {
                                assert(self@.queue =~= p1.queue);
                                lemma_settled_requeued(builder, p0.next_id, p2, self@);
                                assert(handed_out(
                                    path.last(),
                                    now,
                                    Some(id),
                                    supply(*self, *monitor, events@),
                                ));
                            }
                            return Ok(id);
                        },
                        Err(e) => {
                            proof {
                                assert(self@.queue =~= p1.queue);
                                assert(self@ == p2);
                                assert(handed_out(
                                    path.last(),
                                    now,
                                    None,
                                    supply(*self, *monitor, events@),
                                ));
                            }
                            return Err(e);
                        },
                    }
                },
            }
        }
    }
}

impl CircuitPool {
    /// Initialize the pool with pre-built circuits. The first build that fails
    /// ends it.
    #[verifier::rlimit(30)]
    pub fn initialize<B: CircuitBuilder>(
        &mut self,
        monitor: &mut CircuitHealthMonitor,
        builder: &B,
        now: Instant,
        events: &mut Vec<PoolEvent>,
    ) -> (r: Result<(), PoolError>)
        requires
            old(self).wf(),
            old(monitor).wf(),
            can_number(*old(self), old(self).config.pre_build_count as int),
        ensures
            final(self).wf(),
            final(monitor).wf(),
            final(monitor).config == old(monitor).config,
            follows(old(events)@, final(events)@),
            failures_explained(builder, old(events)@, final(events)@),
            initialized(
                builder,
                supply(*old(self), *old(monitor), old(events)@),
                now,
                match r {
                    Ok(_) => None,
                    Err(e) => Some(e@),
                },
                supply(*final(self), *final(monitor), final(events)@),
            ),
    {
        let ghost p0 = self@;
        let ghost m0 = monitor.metrics@;
        let ghost mut new: Seq<u64> = Seq::empty();
        proof {
            lemma_not_grown(p0, m0, now);
        }
        let target: usize = self.config.pre_build_count;
        let mut i: usize = 0;
        assert(old(events)@ + built_events(new) =~= old(events)@);
        assert(events@.take(events@.len() as int) =~= events@);
        while i < target
            invariant
                self.wf(),
                monitor.wf(),
                monitor.config == old(monitor).config,
                p0 == old(self)@,
                m0 == old(monitor).metrics@,
                target == p0.config.pre_build_count,
                can_number(*old(self), target as int),
                i <= target,
                new.len() == i,
                self.next_id == p0.next_id + i,
                grown(p0, m0, self@, monitor.metrics@, now, new),
                settled(builder, p0.next_id, self@),
                follows(old(events)@, events@),
                failures_explained(builder, old(events)@, events@),
                forall|k: int| 0 <= k < new.len() ==> #[trigger] new[k] == p0.next_id + k,
                p0.circuits.dom().finite(),
                forall|x: u64| #[trigger] p0.circuits.dom().contains(x) ==> x < p0.next_id,
                self@.circuits.len() == p0.circuits.len() + new.len(),
                events@ == old(events)@ + built_events(new),
            decreases target - i,
        {
            let ghost pm = self@;
            let ghost mm = monitor.metrics@;
            assert(forall|x: u64| #[trigger] pm.circuits.dom().contains(x) ==> x < pm.next_id) by {
                assert(forall|x: u64| #[trigger]
                    self.circuits@.dom().contains(x) ==> x < self.next_id);
            }
            let ghost before = events@;
            let built = self.build_circuit(monitor, builder, now, events);
            proof {
                lemma_explained_on(builder, old(events)@, before, events@);
                lemma_follows_on(old(events)@, before, events@);
            }
            match built {
                Ok(id) => {
                    proof {
                        lemma_grown_twice(
                            p0,
                            m0,
                            pm,
                            mm,
                            self@,
                            monitor.metrics@,
                            now,
                            new,
                            seq![id],
                        );
                        lemma_settled_on(builder, p0.next_id, pm, self@);
                        let newer = new + seq![id];
                        assert(newer.drop_last() =~= new);
                        new = newer;
                        lemma_grown_len(p0, m0, self@, monitor.metrics@, now, new);
                        assert(events@ =~= old(events)@ + built_events(new));
                    }
                },
                Err(e) => {
                    proof {
                        if pm.circuits.len() < pm.config.max_pool_size {
                            lemma_grown_twice(
                                p0,
                                m0,
                                pm,
                                mm,
                                self@,
                                monitor.metrics@,
                                now,
                                new,
                                Seq::empty(),
                            );
                            assert(new + Seq::<u64>::empty() =~= new);
                            lemma_same_circuits(pm, mm, self@, monitor.metrics@, now);
                            lemma_settled_on(builder, p0.next_id, pm, self@);
                        }
                        assert(self@.queue.skip(p0.queue.len() as int) =~= new);
                        assert(pm.next_id == (p0.next_id + new.len()) as u64);
                        assert(self@.circuits == pm.circuits);
                        assert(settled(builder, p0.next_id, self@));
                        assert(grown(p0, m0, self@, monitor.metrics@, now, new));
                    }
                    return Err(e);
                },
            }
            i = i + 1;
        }
        assert(self@.queue.skip(p0.queue.len() as int) =~= new);
        Ok(())
    }

    /// Builds one circuit in the background. Unlike [`Self::build_circuit`], it
    /// tells of nothing but a success.
    fn build_in_background<B: CircuitBuilder>(
        &mut self,
        monitor: &mut CircuitHealthMonitor,
        builder: &B,
        now: Instant,
        events: &mut Vec<PoolEvent>,
    ) -> (r: Option<CircuitId>)
        requires
            old(self).wf(),
            old(monitor).wf(),
            can_number(*old(self), 1),
        ensures
            final(self).wf(),
            final(monitor).wf(),
            final(monitor).config == old(monitor).config,
            final(self).next_id == old(self).next_id + 1,
            settled(builder, old(self).next_id, final(self)@),
            match r {
                Some(id) => {
                    &&& id == old(self).next_id
                    &&& may_build(builder, id, final(self).circuits@[id].path)
                    &&& grown(
                        old(self)@,
                        old(monitor).metrics@,
                        final(self)@,
                        final(monitor).metrics@,
                        now,
                        seq![id],
                    )
                    &&& final(events)@ == old(events)@.push(
                        PoolEvent::CircuitReady { circuit_id: id },
                    )
                },
                None => {
                    &&& exists|why: PoolError| #[trigger]
                        may_give_up(builder, old(self).next_id, why)
                    &&& grown(
                        old(self)@,
                        old(monitor).metrics@,
                        final(self)@,
                        final(monitor).metrics@,
                        now,
                        Seq::empty(),
                    )
                    &&& final(events)@ == old(events)@
                },
            },
    {
        let id = self.begin_background_build(monitor, now);
        assert(!self.available_queue@.contains(id));
        let answer = builder.build_circuit(id);
        let ghost said = answer;
        let path = match answer {
            Ok(path) => Some(path),
            Err(_) => None,
        };
        let ghost p0 = old(self)@;
        let ghost m0 = old(monitor).metrics@;
        let ghost begun = monitor.metrics@;
        match self.finish_background_build(monitor, id, path, now) {
            Some(event) => {
                events.push(event);
                proof {
                    assert(may_build(builder, id, said->Ok_0));
                    assert(dealt_with(builder, id, self@));
                    let (p1, m1) = (self@, monitor.metrics@);
                    let new = seq![id];
                    assert(p1.queue =~= p0.queue + new);
                    assert(new[0] == id);
                    assert forall|x: u64| #[trigger] new.contains(x) <==> x == id by {
                        if new.contains(x) {
                            let i = choose|i: int| 0 <= i < new.len() && new[i] == x;
                        }
                    }
                    assert forall|x: u64| x != id && m0.dom().contains(x) implies #[trigger] m1[x]
                        == m0[x] by {
                        assert(m1.remove(id)[x] == m0.remove(id)[x]);
                    }
                    assert forall|x: u64| x != id implies (#[trigger] m1.dom().contains(x)
                        <==> m0.dom().contains(x)) by {}
                    assert forall|x: u64| x < p0.next_id && p0.circuits.dom().contains(x) implies
                        #[trigger] p1.circuits[x] == p0.circuits[x] by {
                        assert(p1.circuits.remove(id)[x] == p0.circuits.remove(id)[x]);
                    }
                }
                Some(id)
            },
            None => {
                proof {
                    assert(may_give_up(builder, id, said->Err_0));
                    assert(dealt_with(builder, id, self@));
                    let (p1, m1) = (self@, monitor.metrics@);
                    assert(p1.queue =~= p0.queue + Seq::<u64>::empty());
                    assert forall|x: u64| x != id && m0.dom().contains(x) implies #[trigger] m1[x]
                        == m0[x] by {
                        assert(begun.remove(id)[x] == m0.remove(id)[x]);
                    }
                    assert forall|x: u64| x != id implies (#[trigger] m1.dom().contains(x)
                        <==> m0.dom().contains(x)) by {}
                }
                None
            },
        }
    }

    /// One round of the background refill: builds as many circuits as the queue
    /// lacks, for as long as there is room in the pool. A build that fails does
    /// not end the round.
    pub fn refill_in_background<B: CircuitBuilder>(
        &mut self,
        monitor: &mut CircuitHealthMonitor,
        builder: &B,
        now: Instant,
        events: &mut Vec<PoolEvent>,
    )
        requires
            old(self).wf(),
            old(monitor).wf(),
            can_number(*old(self), old(self).shortfall()),
        ensures
            final(self).wf(),
            final(monitor).wf(),
            final(monitor).config == old(monitor).config,
            settled(builder, old(self).next_id, final(self)@),
            ({
                let new = final(self)@.queue.skip(old(self)@.queue.len() as int);
                &&& grown(
                    old(self)@,
                    old(monitor).metrics@,
                    final(self)@,
                    final(monitor).metrics@,
                    now,
                    new,
                )
                &&& forall|i: int, j: int|
                    0 <= i < j < new.len() ==> #[trigger] new[i] < #[trigger] new[j]
                &&& final(events)@ == old(events)@ + new.map_values(ready_event())
                &&& final(self).next_id <= old(self).next_id + old(self).shortfall()
                &&& final(self).next_id < old(self).next_id + old(self).shortfall()
                    ==> final(self)@.circuits.len() >= final(self).config.max_pool_size
                    || final(self).config.max_concurrent_builds == 0
                &&& old(self).config.max_concurrent_builds == 0 ==> final(self).next_id == old(
                    self,
                ).next_id
            }),
    {
        let needed: usize = self.refill_needed();
        let ghost p0 = self@;
        let ghost m0 = monitor.metrics@;
        let ghost mut new: Seq<u64> = Seq::empty();
        let mut i: usize = 0;
        proof {
            lemma_not_grown(p0, m0, now);
            assert(new.map_values(ready_event()) =~= Seq::<PoolEvent>::empty());
            assert(old(events)@ + Seq::<PoolEvent>::empty() =~= old(events)@);
        }
        while i < needed && self.config.max_concurrent_builds > 0 && self.circuits.len()
            < self.config.max_pool_size
            invariant
                self.wf(),
                monitor.wf(),
                monitor.config == old(monitor).config,
                p0 == old(self)@,
                m0 == old(monitor).metrics@,
                needed == old(self).shortfall(),
                can_number(*old(self), needed as int),
                i <= needed,
                self.next_id == p0.next_id + i,
                grown(p0, m0, self@, monitor.metrics@, now, new),
                settled(builder, p0.next_id, self@),
                forall|x: u64| #[trigger] p0.circuits.dom().contains(x) ==> x < p0.next_id,
                forall|a: int, b: int|
                    0 <= a < b < new.len() ==> #[trigger] new[a] < #[trigger] new[b],
                events@ == old(events)@ + new.map_values(ready_event()),
                p0.config.max_concurrent_builds == 0 ==> i == 0,
            decreases needed - i,
        {
            let ghost pm = self@;
            let ghost mm = monitor.metrics@;
            let ghost before = new;
            assert(forall|x: u64| #[trigger] pm.circuits.dom().contains(x) ==> x < pm.next_id) by {
                assert(forall|x: u64| #[trigger]
                    self.circuits@.dom().contains(x) ==> x < self.next_id);
            }
            let built = self.build_in_background(monitor, builder, now, events);
            proof {
                let more = match built {
                    Some(id) => seq![id],
                    None => Seq::empty(),
                };
                lemma_grown_twice(
                    p0,
                    m0,
                    pm,
                    mm,
                    self@,
                    monitor.metrics@,
                    now,
                    new,
                    more,
                );
                assert(settled(builder, p0.next_id, self@)) by {
                    if built is None {
                        lemma_same_circuits(pm, mm, self@, monitor.metrics@, now);
                    }
                    lemma_settled_on(builder, p0.next_id, pm, self@);
                }
                new = new + more;
                match built {
                    Some(id) => {
                        assert(new =~= before.push(id));
                        assert(events@ =~= old(events)@ + new.map_values(ready_event()));
                    },
                    None => {
                        assert(new =~= before);
                    },
                }
            }
            i = i + 1;
        }
        assert(self@.queue.skip(p0.queue.len() as int) =~= new);
    }

    /// Return a circuit to the pool; one that has served its time is retired
    pub fn release_circuit<B: CircuitBuilder>(
        &mut self,
        monitor: &mut CircuitHealthMonitor,
        builder: &B,
        circuit_id: CircuitId,
        now: Instant,
        events: &mut Vec<PoolEvent>,
    ) -> (r: Result<(), PoolError>)
        requires
            old(self).wf(),
            old(monitor).wf(),
            can_number(*old(self), old(self).config.min_pool_size as int),
        ensures
            final(self).wf(),
            final(monitor).wf(),
            final(monitor).config == old(monitor).config,
            old(self).next_id <= final(self).next_id <= old(self).next_id + old(
                self,
            ).config.min_pool_size,
            final(self).config == old(self).config,
            given_back(
                supply(*old(self), *old(monitor), old(events)@),
                circuit_id,
                supply(*final(self), *final(monitor), final(events)@),
                now,
            ),
            settled(builder, old(self).next_id, final(self)@),
            follows(old(events)@, final(events)@),
            failures_explained(builder, old(events)@, final(events)@),
            if !old(self).circuits@.dom().contains(circuit_id) {
                &&& r matches Err(e) && e@ == PoolFailure::CircuitNotFound(circuit_id)
                &&& final(events)@ == old(events)@
            } else if old(self).spent(old(self).circuits@[circuit_id], now) {
                &&& r is Ok
                &&& closed_by(builder, circuit_id)
                &&& follows(
                    old(events)@.push(
                        PoolEvent::CircuitRetired { circuit_id, reason: RetireReason::UseCount },
                    ),
                    final(events)@,
                )
            } else {
                &&& r is Ok
                &&& final(events)@ == old(events)@.push(PoolEvent::CircuitReleased { circuit_id })
            },
    {
        assert(events@.take(events@.len() as int) =~= events@);
        match self.begin_release(circuit_id, now) {
            Err(e) => Err(e),
            Ok(ReleaseStep::Released) => {
                proof {
                    lemma_tell(events@, events@, PoolEvent::CircuitReleased { circuit_id });
                }
                events.push(PoolEvent::CircuitReleased { circuit_id });
                Ok(())
            },
            Ok(ReleaseStep::Retire) => self.retire_circuit(
                monitor,
                builder,
                circuit_id,
                RetireReason::UseCount,
                now,
                events,
            ),
        }
    }

    /// Update circuit usage stats; a circuit that has carried enough is retired
    pub fn update_circuit_usage<B: CircuitBuilder>(
        &mut self,
        monitor: &mut CircuitHealthMonitor,
        builder: &B,
        circuit_id: CircuitId,
        bytes_transferred: u64,
        now: Instant,
        events: &mut Vec<PoolEvent>,
    ) -> (r: Result<(), PoolError>)
        requires
            old(self).wf(),
            old(monitor).wf(),
            can_number(*old(self), old(self).config.min_pool_size as int),
            old(self).circuits@.dom().contains(circuit_id)
                ==> old(self).circuits@[circuit_id].bytes_transferred + bytes_transferred
                <= u64::MAX,
        ensures
            final(self).wf(),
            final(monitor).wf(),
            final(monitor).config == old(monitor).config,
            old(self).next_id <= final(self).next_id <= old(self).next_id + old(
                self,
            ).config.min_pool_size,
            final(self).config == old(self).config,
            settled(builder, old(self).next_id, final(self)@),
            follows(old(events)@, final(events)@),
            failures_explained(builder, old(events)@, final(events)@),
            if !old(self).circuits@.dom().contains(circuit_id) {
                &&& r matches Err(e) && e@ == PoolFailure::CircuitNotFound(circuit_id)
                &&& final(self)@ == old(self)@
                &&& final(monitor).metrics@ == old(monitor).metrics@
                &&& final(events)@ == old(events)@
            } else if old(self).circuits@[circuit_id].bytes_transferred + bytes_transferred >= old(
                self,
            ).config.max_bytes_transferred {
                &&& r is Ok
                &&& closed_by(builder, circuit_id)
                &&& retired_and_refilled(
                    supply(*old(self), *old(monitor), old(events)@),
                    circuit_id,
                    RetireReason::BytesTransferred,
                    supply(*final(self), *final(monitor), final(events)@),
                    now,
                )
                &&& follows(
                    old(events)@.push(
                        PoolEvent::CircuitRetired {
                            circuit_id,
                            reason: RetireReason::BytesTransferred,
                        },
                    ),
                    final(events)@,
                )
            } else {
                &&& r is Ok
                &&& final(self)@ == (PoolView {
                    circuits: old(self).circuits@.insert(
                        circuit_id,
                        PoolCircuit {
                            bytes_transferred: (old(self).circuits@[circuit_id].bytes_transferred
                                + bytes_transferred) as u64,
                            ..old(self).circuits@[circuit_id]
                        },
                    ),
                    ..old(self)@
                })
                &&& final(monitor).metrics@ == old(monitor).metrics@
                &&& final(events)@ == old(events)@
            },
    {
        assert(events@.take(events@.len() as int) =~= events@);
        match self.add_usage(circuit_id, bytes_transferred) {
            Err(e) => Err(e),
            Ok(UsageStep::Kept) => Ok(()),
            Ok(UsageStep::Retire) => {
                assert(self.circuits@.remove(circuit_id) =~= old(self).circuits@.remove(
                    circuit_id,
                ));
                self.retire_circuit(
                    monitor,
                    builder,
                    circuit_id,
                    RetireReason::BytesTransferred,
                    now,
                    events,
                )
            },
        }
    }
}

/// Whether another circuit was acquired and this one retired.
pub open spec fn exchanged(
    s0: Supply,
    config: HealthMonitorConfig,
    now: Instant,
    got: CircuitId,
    circuit_id: CircuitId,
    reason: RetireReason,
    s1: Supply,
) -> bool {
    exists|s: Supply| #[trigger]
        acquired(s0, config, now, Some(got), s) && retired_if_there(s, circuit_id, reason, s1, now)
}

/// Whether the circuit was given back to the pool: it is retired where it has
/// served its time, and else free and at the end of the queue.
pub open spec fn given_back(
    s0: Supply,
    circuit_id: CircuitId,
    s1: Supply,
    now: Instant,
) -> bool {
    let c = s0.pool.circuits[circuit_id];
    if s0.pool.circuits.dom().contains(circuit_id) && !served(s0.pool.config, c, now) {
        s1 == (Supply {
            pool: PoolView {
                circuits: s0.pool.circuits.insert(circuit_id, c.freed()),
                queue: queue_with(s0.pool.queue, c.freed()),
                ..s0.pool
            },
            metrics: s0.metrics,
            events: s0.events.push(PoolEvent::CircuitReleased { circuit_id }),
        })
    } else {
        retired_if_there(s0, circuit_id, RetireReason::UseCount, s1, now)
    }
}

/// Whether the circuits `ids` were retired in turn, as far as they were in the
/// pool: `states` holds what there was before each and at last.
pub open spec fn retired_in_turn(
    states: Seq<Supply>,
    ids: Seq<CircuitId>,
    reason: RetireReason,
    now: Instant,
) -> bool {
    &&& states.len() == ids.len() + 1
    &&& forall|k: int|
        0 <= k < ids.len() ==> #[trigger] retired_if_there(
            states[k],
            ids[k],
            reason,
            states[k + 1],
            now,
        )
}

/// An acquisition uses no circuit more than once.
pub proof fn law_acquisitions_use_once(
    p0: PoolView,
    config: HealthMonitorConfig,
    m0: Map<u64, CircuitMetrics>,
    now: Instant,
    got: Option<u64>,
    p1: PoolView,
    m1: Map<u64, CircuitMetrics>,
    n: int,
)
    requires
        outlined(p0, config, m0, now, got, p1, m1),
        forall|id: u64| #[trigger]
            p0.circuits.dom().contains(id) ==> p0.circuits[id].use_count + n <= u64::MAX,
        1 <= n <= u64::MAX,
    ensures
        forall|id: u64| #[trigger]
            p1.circuits.dom().contains(id) ==> p1.circuits[id].use_count + (n - 1) <= u64::MAX,
{
    let gone = worn_front(p0.queue, config, m0, p0.circuits.dom(), now);
    let queue = fit_queue(p0.queue, config, m0, p0.circuits.dom(), now);
    let kept = p0.circuits.remove_keys(gone);
    assert forall|id: u64| #[trigger] p1.circuits.dom().contains(id) implies p1.circuits[id].use_count
        + (n - 1) <= u64::MAX by {
        match got {
            Some(x) => if queue.len() > 0 {
                let used = in_use(kept, x, now);
                if id < p0.next_id {
                    assert(used.dom().contains(id));
                    assert(p1.circuits[id] == used[id]);
                    assert(kept.dom().contains(id));
                }
            } else if id == x {
                assert(p1.circuits[id].use_count == 1);
            } else {
                let view = PoolView { circuits: kept, queue, ..p0 };
                let m = m0.remove_keys(gone);
                let new = seq![x] + p1.queue;
                assert(built_and_taken(view, m, now, x, p1, m1, new));
                let before = PoolView {
                    circuits: p1.circuits.insert(x, unused(p1.circuits[x])),
                    queue: view.queue + new,
                    ..p1
                };
                assert(before.circuits.dom().contains(id));
                assert(before.circuits[id] == p1.circuits[id]);
                if id < p0.next_id {
                    assert(kept.dom().contains(id));
                } else {
                    assert(new.contains(id));
                }
            },
            None => {
                if id < p0.next_id {
                    assert(kept.dom().contains(id));
                }
            },
        }
    }
}

/// An exchange uses no circuit more than once.
pub(crate) proof fn lemma_exchange_uses(
    s0: Supply,
    config: HealthMonitorConfig,
    now: Instant,
    got: CircuitId,
    circuit_id: CircuitId,
    reason: RetireReason,
    s1: Supply,
    n: int,
)
    requires
        exchanged(s0, config, now, got, circuit_id, reason, s1),
        forall|id: u64| #[trigger]
            s0.pool.circuits.dom().contains(id) ==> s0.pool.circuits[id].use_count + n <= u64::MAX,
        1 <= n <= u64::MAX,
    ensures
        forall|id: u64| #[trigger]
            s1.pool.circuits.dom().contains(id) ==> s1.pool.circuits[id].use_count + (n - 1)
                <= u64::MAX,
{
    let s = choose|s: Supply| #[trigger]
        acquired(s0, config, now, Some(got), s) && retired_if_there(s, circuit_id, reason, s1, now);
    let p = s.pool;
    law_acquisitions_use_once(s0.pool, config, s0.metrics, now, Some(got), p, s.metrics, n);
    if p.circuits.dom().contains(circuit_id) {
        assert forall|id: u64| #[trigger]
            s1.pool.circuits.dom().contains(id) implies s1.pool.circuits[id].use_count + (n - 1)
            <= u64::MAX by {
            if id < p.next_id {
                assert(p.circuits.remove(circuit_id).dom().contains(id));
            }
        }
    }
}

/// Numbers are never given out twice: a circuit that is built is not among the
/// ones that were there, in the pool or in its queue.
pub proof fn law_numbers_are_not_reused(
    p0: CircuitPool,
    m0: Map<u64, CircuitMetrics>,
    p1: PoolView,
    m1: Map<u64, CircuitMetrics>,
    now: Instant,
    new: Seq<u64>,
    i: int,
)
    requires
        p0.wf(),
        grown(p0@, m0, p1, m1, now, new),
        0 <= i < new.len(),
    ensures
        !p0.circuits@.dom().contains(new[i]),
        !p0.available_queue@.contains(new[i]),
        p1.circuits.dom().contains(new[i]),
{
    assert(new.contains(new[i]));
    assert(p0.next_id <= new[i]);
    if p0.available_queue@.contains(new[i]) {
        let k = choose|k: int| 0 <= k < p0.available_queue@.len() && p0.available_queue@[k]
            == new[i];
        assert(p0.available_queue@[k] < p0.next_id);
    }
}

/// No circuit that needs rotation is handed out, and those that stood before
/// the one that is are gone from the pool, from its queue and from the health
/// monitor.
pub proof fn law_worn_circuits_are_not_handed_out(
    p0: CircuitPool,
    config: HealthMonitorConfig,
    m0: Map<u64, CircuitMetrics>,
    now: Instant,
    id: u64,
    p1: PoolView,
    m1: Map<u64, CircuitMetrics>,
)
    requires
        p0.wf(),
        forall|x: u64| !#[trigger] worn_out(config, MetricsView::fresh(x, now), now),
        outlined(p0@, config, m0, now, Some(id), p1, m1),
    ensures
        !worn(config, m1, id, now),
        forall|x: u64| #[trigger]
            worn_front(p0.available_queue@, config, m0, p0.circuits@.dom(), now).contains(x)
                ==> x != id && !p1.circuits.dom().contains(x) && !p1.queue.contains(x)
                && !m1.dom().contains(x),
{
    let q = p0.available_queue@;
    let held = p0.circuits@.dom();
    let gone = worn_front(q, config, m0, held, now);
    let queue = fit_queue(q, config, m0, held, now);
    let view = PoolView { circuits: p0.circuits@.remove_keys(gone), queue, ..p0@ };
    let m = m0.remove_keys(gone);
    lemma_fit_queue(q, config, m0, held, now);
    lemma_fit_front(q, config, m0, held, now);
    if queue.len() > 0 {
        let used = PoolView {
            circuits: in_use(view.circuits, id, now),
            queue: queue.skip(1),
            ..view
        };
        let new = p1.queue.skip(queue.len() - 1);
        assert(queue.contains(queue[0]));
        lemma_in_range(p0, id);
        assert(m1.dom().contains(id) <==> m.dom().contains(id));
        assert forall|x: u64| #[trigger] gone.contains(x) implies x != id
            && !p1.circuits.dom().contains(x) && !p1.queue.contains(x)
            && !m1.dom().contains(x) by {
            lemma_in_range(p0, x);
            assert(p1.circuits.dom().contains(x) <==> used.circuits.dom().contains(x));
            assert(m1.dom().contains(x) <==> m.dom().contains(x));
            if p1.queue.contains(x) {
                let k = choose|k: int| 0 <= k < p1.queue.len() && p1.queue[k] == x;
                if k < queue.len() - 1 {
                    assert(queue[k + 1] == x);
                    assert(queue.contains(x));
                } else {
                    assert(new[k - (queue.len() - 1)] == x);
                }
            }
        }
    } else {
        let new = seq![id] + p1.queue;
        assert(built_and_taken(view, m, now, id, p1, m1, new));
        let before = PoolView {
            circuits: p1.circuits.insert(id, unused(p1.circuits[id])),
            queue: view.queue + new,
            ..p1
        };
        assert(new.contains(id)) by {
            assert(new[0] == id);
        }
        assert(m1.dom().contains(id) <==> new.contains(id)) by {
            let i = choose|i: int| 0 <= i < new.len() && new[i] == id;
            assert(new[0] == id);
        }
        assert(!worn_out(config, MetricsView::fresh(id, now), now));
        assert forall|x: u64| #[trigger] gone.contains(x) implies x != id
            && !p1.circuits.dom().contains(x) && !p1.queue.contains(x)
            && !m1.dom().contains(x) by {
            lemma_in_range(p0, x);
            assert(new[0] == id);
            assert(before.circuits.dom().contains(x) <==> view.circuits.dom().contains(x));
            assert(m1.dom().contains(x) <==> m.dom().contains(x));
            if p1.queue.contains(x) {
                let k = choose|k: int| 0 <= k < p1.queue.len() && p1.queue[k] == x;
                assert(new[k + 1] == x);
            }
        }
    }
}

/// What is in the queue or the pool has been numbered.
proof fn lemma_in_range(p: CircuitPool, id: u64)
    requires
        p.wf(),
        p.circuits@.dom().contains(id) || p.available_queue@.contains(id),
    ensures
        id < p.next_id,
{
    if p.available_queue@.contains(id) {
        let i = choose|i: int| 0 <= i < p.available_queue@.len() && p.available_queue@[i] == id;
        assert(p.available_queue@[i] < p.next_id);
    }
}

/// The front of what is left of the queue is not worn out.
proof fn lemma_fit_front(
    q: Seq<u64>,
    config: HealthMonitorConfig,
    m: Map<u64, CircuitMetrics>,
    held: Set<u64>,
    now: Instant,
)
    ensures
        fit_queue(q, config, m, held, now).len() > 0 ==> !worn(
            config,
            m,
            fit_queue(q, config, m, held, now)[0],
            now,
        ),
    decreases q.len(),
{
    if q.len() > 0 && worn(config, m, q[0], now) {
        let tail = q.skip(1);
        maps::lemma_except(tail, q[0]);
        if held.contains(q[0]) {
            lemma_fit_front(except(tail, q[0]), config, m, held, now);
        } else {
            lemma_fit_front(tail, config, m, held, now);
        }
    }
}

/// A retired circuit is gone: from the pool, from its queue and from the health
/// monitor, whatever the refill builds.
pub proof fn law_retired_circuits_are_gone(
    p0: CircuitPool,
    s0: Supply,
    circuit_id: CircuitId,
    reason: RetireReason,
    s1: Supply,
    now: Instant,
)
    requires
        p0.wf(),
        s0.pool == p0@,
        p0.circuits@.dom().contains(circuit_id),
        retired_and_refilled(s0, circuit_id, reason, s1, now),
    ensures
        !s1.pool.circuits.dom().contains(circuit_id),
        !s1.pool.queue.contains(circuit_id),
        !s1.metrics.dom().contains(circuit_id),
{
    let queue = except(p0.available_queue@, circuit_id);
    let new = s1.pool.queue.skip(queue.len() as int);
    maps::lemma_except(p0.available_queue@, circuit_id);
    assert(circuit_id < p0.next_id);
    assert(!s1.pool.circuits.dom().contains(circuit_id));
    if s1.pool.queue.contains(circuit_id) {
        let k = choose|k: int| 0 <= k < s1.pool.queue.len() && s1.pool.queue[k] == circuit_id;
        if k < queue.len() {
            assert(queue[k] == circuit_id);
        } else {
            assert(new[k - queue.len()] == circuit_id);
        }
    }
}

/// With a builder that gives up no circuit and room enough in the pool, the pool
/// is filled.
pub proof fn law_willing_builders_fill_the_pool<B: CircuitBuilder>(
    builder: &B,
    s0: Supply,
    now: Instant,
    failure: Option<PoolFailure>,
    s1: Supply,
)
    requires
        initialized(builder, s0, now, failure, s1),
        s0.pool.circuits.len() + s0.pool.config.pre_build_count <= s0.pool.config.max_pool_size,
        forall|id: u64, why: PoolError| !#[trigger] may_give_up(builder, id, why),
    ensures
        failure is None,
        s1.pool.queue.len() == s0.pool.queue.len() + s0.pool.config.pre_build_count,
        s1.pool.circuits.len() == s0.pool.circuits.len() + s0.pool.config.pre_build_count,
{
    let new = s1.pool.queue.skip(s0.pool.queue.len() as int);
    assert(s1.pool.queue == s0.pool.queue + new);
}

/// Whether a failed build was told of since `before`.
pub open spec fn failure_told(before: Seq<PoolEvent>, events: Seq<PoolEvent>) -> bool {
    exists|i: int|
        before.len() <= i < events.len() && (#[trigger] events[i]) is CircuitBuildFailed
}

/// Whether as many circuits are queued as there are to be, the pool is at its
/// capacity, or a build has failed since `before`, which was told.
pub open spec fn stocked(before: Seq<PoolEvent>, s: Supply) -> bool {
    ||| s.pool.queue.len() >= s.pool.config.min_pool_size
    ||| s.pool.circuits.len() >= s.pool.config.max_pool_size
    ||| failure_told(before, s.events)
}

/// A refill leaves the pool with its minimum of circuits at hand, unless the
/// capacity forbids it or a build fails.
pub proof fn law_refill_keeps_the_minimum(s0: Supply, s1: Supply, now: Instant)
    requires
        refilled(s0, s1, now),
    ensures
        stocked(s0.events, s1),
{
    let new = s1.pool.queue.skip(s0.pool.queue.len() as int);
    if s1.pool.next_id > s0.pool.next_id + new.len() {
        let built = s0.events + built_events(new);
        let all = if new.len() > 0 {
            s1.events.drop_last()
        } else {
            s1.events
        };
        assert(failed_build(built, (s1.pool.next_id - 1) as u64, all));
        assert(s1.events[all.len() - 1] == all.last());
        assert(s1.events[all.len() - 1] is CircuitBuildFailed);
    }
}

/// A retirement leaves the pool with its minimum of circuits at hand, unless the
/// capacity forbids it or a build fails.
pub proof fn law_retirement_keeps_the_minimum(
    s0: Supply,
    circuit_id: CircuitId,
    reason: RetireReason,
    s1: Supply,
    now: Instant,
)
    requires
        retired_and_refilled(s0, circuit_id, reason, s1, now),
    ensures
        stocked(s0.events, s1),
{
    let gone = Supply {
        pool: PoolView {
            circuits: s0.pool.circuits.remove(circuit_id),
            queue: except(s0.pool.queue, circuit_id),
            ..s0.pool
        },
        metrics: s0.metrics.remove(circuit_id),
        events: s0.events.push(PoolEvent::CircuitRetired { circuit_id, reason }),
    };
    law_refill_keeps_the_minimum(gone, s1, now);
    lemma_failure_told_before(s0.events, gone.events, s1.events);
}

proof fn lemma_failure_told_before(
    a: Seq<PoolEvent>,
    b: Seq<PoolEvent>,
    events: Seq<PoolEvent>,
)
    requires
        a.len() <= b.len(),
    ensures
        failure_told(b, events) ==> failure_told(a, events),
{
    if failure_told(b, events) {
        let i = choose|i: int|
            b.len() <= i < events.len() && (#[trigger] events[i]) is CircuitBuildFailed;
        assert(events[i] is CircuitBuildFailed);
    }
}

/// An acquisition leaves the pool with its minimum of circuits at hand, unless
/// the capacity forbids it, a build fails, or it finds the queue empty and says
/// so.
pub proof fn law_acquisition_keeps_the_minimum(
    s0: Supply,
    config: HealthMonitorConfig,
    now: Instant,
    got: Option<u64>,
    s1: Supply,
)
    requires
        acquired(s0, config, now, got, s1),
    ensures
        stocked(s0.events, s1) || told(s0.events, s1.events, PoolEvent::PoolEmpty),
{
    let path = choose|path: Seq<Supply>| #[trigger]
        cleared(s0, config, now, path) && handed_out(path.last(), now, got, s1);
    lemma_path_follows(s0, config, now, path, path.len() - 1);
    let s = path.last();
    if s.pool.queue.len() > 0 {
        let id = s.pool.queue[0];
        let taken = Supply {
            pool: PoolView {
                circuits: in_use(s.pool.circuits, id, now),
                queue: s.pool.queue.skip(1),
                ..s.pool
            },
            metrics: s.metrics,
            events: s.events.push(PoolEvent::CircuitAcquired { circuit_id: id }),
        };
        law_refill_keeps_the_minimum(taken, s1, now);
        lemma_failure_told_before(s0.events, taken.events, s1.events);
    } else {
        let asked = s.events.push(PoolEvent::PoolEmpty);
        let n = s.events.len() as int;
        assert(asked[n] == PoolEvent::PoolEmpty);
        if s.pool.circuits.len() < s.pool.config.max_pool_size && got is None {
            assert(s1.events.drop_last()[n] == asked[n]);
        }
        assert(s1.events[n] == PoolEvent::PoolEmpty);
    }
}

proof fn lemma_path_follows(
    s0: Supply,
    config: HealthMonitorConfig,
    now: Instant,
    path: Seq<Supply>,
    k: int,
)
    requires
        cleared(s0, config, now, path),
        0 <= k < path.len(),
    ensures
        s0.events.len() <= path[k].events.len(),
    decreases k,
{
    if k > 0 {
        lemma_path_follows(s0, config, now, path, k - 1);
        assert(front_retired(path[k - 1], config, now, path[k - 1 + 1]));
        let a = path[k - 1];
        let front = a.pool.queue[0];
        let b = Supply { pool: PoolView { queue: a.pool.queue.skip(1), ..a.pool }, ..a };
        if b.pool.circuits.dom().contains(front) {
            let mid = Supply {
                pool: PoolView {
                    circuits: b.pool.circuits.remove(front),
                    queue: except(b.pool.queue, front),
                    ..b.pool
                },
                metrics: b.metrics.remove(front),
                events: b.events.push(
                    PoolEvent::CircuitRetired {
                        circuit_id: front,
                        reason: RetireReason::HealthCheck,
                    },
                ),
            };
            let c = path[k];
            let new = c.pool.queue.skip(mid.pool.queue.len() as int);
            let failed = c.pool.next_id > mid.pool.next_id + new.len();
            lemma_refill_follows(
                mid.events,
                new,
                if failed {
                    Some((c.pool.next_id - 1) as u64)
                } else {
                    None
                },
                c.events,
            );
        }
    }
}

/// No circuit that is in use is handed out: the one that is was ready, or marked
/// for refresh since, or has been built meanwhile under a new number. It is in
/// use now, once more than before.
pub proof fn law_circuits_in_use_are_not_handed_out(
    p0: CircuitPool,
    s0: Supply,
    config: HealthMonitorConfig,
    now: Instant,
    id: u64,
    s1: Supply,
)
    requires
        p0.wf(),
        s0.pool == p0@,
        acquired(s0, config, now, Some(id), s1),
    ensures
        s1.pool.circuits.dom().contains(id),
        s1.pool.circuits[id].state == PoolCircuitState::InUse,
        if p0.circuits@.dom().contains(id) {
            &&& p0.circuits@[id].waiting()
            &&& p0.circuits@[id].state != PoolCircuitState::InUse
            &&& s1.pool.circuits[id] == p0.circuits@[id].used(now)
        } else {
            id >= p0.next_id && s1.pool.circuits[id].use_count == 1
        },
        forall|x: u64| #[trigger]
            p0.circuits@.dom().contains(x) && p0.circuits@[x].state == PoolCircuitState::InUse
                ==> x != id,
{
    let held = p0.circuits@.dom();
    let q = p0.available_queue@;
    let gone = worn_front(q, config, s0.metrics, held, now);
    let queue = fit_queue(q, config, s0.metrics, held, now);
    let m = s0.metrics.remove_keys(gone);
    let kept = PoolView { circuits: p0.circuits@.remove_keys(gone), queue, ..p0@ };
    lemma_fit_queue(q, config, s0.metrics, held, now);
    if queue.len() > 0 {
        let used = in_use(kept.circuits, id, now);
        assert(queue.contains(queue[0]));
        lemma_in_range(p0, id);
        let i = choose|i: int| 0 <= i < q.len() && q[i] == id;
        assert(super::pool::may_wait(p0.circuits@, q[i]));
        assert(s1.pool.circuits.dom().contains(id) <==> used.dom().contains(id));
        assert(kept.circuits.dom().contains(id));
        assert(s1.pool.circuits[id] == used[id]);
    } else {
        let new = seq![id] + s1.pool.queue;
        let before = PoolView {
            circuits: s1.pool.circuits.insert(id, unused(s1.pool.circuits[id])),
            queue: kept.queue + new,
            ..s1.pool
        };
        assert(grown(kept, m, before, s1.metrics, now, new));
        assert(new[0] == id);
        assert(p0.next_id <= new[0]);
    }
}

/// Two acquisitions in a row give two circuits, and the first stays in use.
pub proof fn law_acquisitions_differ(
    p0: CircuitPool,
    s0: Supply,
    config: HealthMonitorConfig,
    now: Instant,
    id: u64,
    p1: CircuitPool,
    s1: Supply,
    then: Instant,
    other: u64,
    s2: Supply,
)
    requires
        p0.wf(),
        s0.pool == p0@,
        acquired(s0, config, now, Some(id), s1),
        p1.wf(),
        s1.pool == p1@,
        p1.usable_count(),
        acquired(s1, config, then, Some(other), s2),
    ensures
        other != id,
        s2.pool.circuits.dom().contains(id),
        s2.pool.circuits[id] == s1.pool.circuits[id],
        s2.pool.circuits[id].state == PoolCircuitState::InUse,
        s2.pool.circuits.dom().contains(other),
        s2.pool.circuits[other].state == PoolCircuitState::InUse,
        s2.pool.circuits[other].use_count == 1 + (if p1.circuits@.dom().contains(other) {
            p1.circuits@[other].use_count as int
        } else {
            0
        }),
{
    law_circuits_in_use_are_not_handed_out(p0, s0, config, now, id, s1);
    law_circuits_in_use_are_not_handed_out(p1, s1, config, then, other, s2);
    let held = p1.circuits@.dom();
    let gone = worn_front(p1.available_queue@, config, s1.metrics, held, then);
    lemma_fit_queue(p1.available_queue@, config, s1.metrics, held, then);
    lemma_acquisition_keeps(
        s1.pool,
        config,
        s1.metrics,
        then,
        Some(other),
        s2.pool,
        s2.metrics,
    );
    assert(held.contains(id));
    if gone.contains(id) {
        assert(p1.available_queue@.contains(id));
        let i = choose|i: int| 0 <= i < p1.available_queue@.len() && p1.available_queue@[i] == id;
        assert(super::pool::may_wait(p1.circuits@, p1.available_queue@[i]));
    }
    assert(s2.pool.circuits.dom().contains(id));
}

/// An acquisition of a circuit that is at hand, in figures: one more circuit is in
/// use, and ready are the new ones and those that were, but for the worn-out ones
/// and the one that is handed out.
pub proof fn law_acquisition_in_figures(
    p0: CircuitPool,
    s0: Supply,
    config: HealthMonitorConfig,
    now: Instant,
    id: u64,
    s1: Supply,
)
    requires
        p0.wf(),
        s0.pool == p0@,
        p0.circuits@.dom().finite(),
        acquired(s0, config, now, Some(id), s1),
        first_fit(p0@, config, s0.metrics, now) == Some(id),
    ensures
        ({
            let gone = worn_front(
                p0.available_queue@,
                config,
                s0.metrics,
                p0.circuits@.dom(),
                now,
            );
            let queue = fit_queue(p0.available_queue@, config, s0.metrics, p0.circuits@.dom(), now);
            let new = s1.pool.queue.skip(queue.len() - 1);
            let ready = in_state(p0.circuits@, PoolCircuitState::Ready).difference(gone).remove(id);
            &&& in_state(s1.pool.circuits, PoolCircuitState::InUse).len() == p0.count_of(
                PoolCircuitState::InUse,
            ) + 1
            &&& in_state(s1.pool.circuits, PoolCircuitState::Ready) == ready.union(new.to_set())
            &&& in_state(s1.pool.circuits, PoolCircuitState::Ready).len() == ready.len()
                + new.len()
        }),
{
    let held = p0.circuits@.dom();
    let q = p0.available_queue@;
    let gone = worn_front(q, config, s0.metrics, held, now);
    let queue = fit_queue(q, config, s0.metrics, held, now);
    let m = s0.metrics.remove_keys(gone);
    let kept = p0.circuits@.remove_keys(gone);
    let used = in_use(kept, id, now);
    let new = s1.pool.queue.skip(queue.len() - 1);
    let busy0 = in_state(p0.circuits@, PoolCircuitState::InUse);
    let busy1 = in_state(s1.pool.circuits, PoolCircuitState::InUse);
    let ready0 = in_state(p0.circuits@, PoolCircuitState::Ready);
    let ready1 = in_state(s1.pool.circuits, PoolCircuitState::Ready);
    let ready = ready0.difference(gone).remove(id);
    law_circuits_in_use_are_not_handed_out(p0, s0, config, now, id, s1);
    lemma_acquired_holds(p0, config, s0.metrics, now, id, s1.pool, s1.metrics);
    lemma_fit_queue(q, config, s0.metrics, held, now);
    assert(queue.contains(queue[0]));
    assert forall|x: u64| #[trigger] gone.contains(x) implies p0.circuits@[x].waiting() by {
        let i = choose|i: int| 0 <= i < q.len() && q[i] == x;
        assert(super::pool::may_wait(p0.circuits@, q[i]));
    }
    assert forall|x: u64| #[trigger] new.contains(x) implies p0.next_id <= x
        && s1.pool.circuits.dom().contains(x) && s1.pool.circuits[x].state
        == PoolCircuitState::Ready by {
        let i = choose|i: int| 0 <= i < new.len() && new[i] == x;
        assert(is_ready(s1.pool.circuits[x], x, now));
    }
    assert forall|x: u64| held.contains(x) && !gone.contains(x) implies
        #[trigger] s1.pool.circuits.dom().contains(x) && s1.pool.circuits[x] == used[x] by {
        assert(x < p0.next_id);
        assert(used.dom().contains(x));
    }
    assert forall|x: u64| #[trigger] s1.pool.circuits.dom().contains(x) implies (held.contains(x)
        && !gone.contains(x)) || new.contains(x) by {
        if x < p0.next_id {
            assert(used.dom().contains(x));
        }
    }
    assert(busy1 =~= busy0.insert(id));
    assert(ready1 =~= ready.union(new.to_set()));
    vstd::set_lib::lemma_set_subset_finite(held, busy0);
    vstd::set_lib::lemma_set_subset_finite(held, ready);
    new.unique_seq_to_set();
    assert(ready.disjoint(new.to_set())) by {
        assert forall|x: u64| ready.contains(x) implies !new.to_set().contains(x) by {
            assert(x < p0.next_id);
        }
    }
    vstd::set_lib::lemma_set_disjoint_lens(ready, new.to_set());
}

/// A release of a circuit that has not served its time, in figures: it is ready
/// where it was in use.
pub proof fn law_release_in_figures(
    p0: CircuitPool,
    s0: Supply,
    circuit_id: CircuitId,
    s1: Supply,
    now: Instant,
)
    requires
        s0.pool == p0@,
        p0.circuits@.dom().finite(),
        p0.circuits@.dom().contains(circuit_id),
        p0.circuits@[circuit_id].state == PoolCircuitState::InUse,
        !p0.spent(p0.circuits@[circuit_id], now),
        given_back(s0, circuit_id, s1, now),
    ensures
        in_state(s1.pool.circuits, PoolCircuitState::InUse).len() + 1 == p0.count_of(
            PoolCircuitState::InUse,
        ),
        in_state(s1.pool.circuits, PoolCircuitState::Ready).len() == p0.count_of(
            PoolCircuitState::Ready,
        ) + 1,
        s1.pool.circuits.dom() == p0.circuits@.dom(),
{
    let held = p0.circuits@.dom();
    let busy = in_state(p0.circuits@, PoolCircuitState::InUse);
    let ready = in_state(p0.circuits@, PoolCircuitState::Ready);
    vstd::set_lib::lemma_set_subset_finite(held, busy);
    vstd::set_lib::lemma_set_subset_finite(held, ready);
    assert(in_state(s1.pool.circuits, PoolCircuitState::InUse) =~= busy.remove(circuit_id));
    assert(in_state(s1.pool.circuits, PoolCircuitState::Ready) =~= ready.insert(circuit_id));
    assert(s1.pool.circuits.dom() =~= held);
}

/// Builds that were admitted one at a time never take the pool over its
/// capacity.
pub proof fn law_capacity_is_kept(
    p0: PoolView,
    m0: Map<u64, CircuitMetrics>,
    p1: PoolView,
    m1: Map<u64, CircuitMetrics>,
    now: Instant,
    id: u64,
)
    requires
        p0.circuits.dom().finite(),
        p0.circuits.len() < p0.config.max_pool_size,
        forall|x: u64| #[trigger] p0.circuits.dom().contains(x) ==> x < p0.next_id,
        grown(p0, m0, p1, m1, now, seq![id]),
    ensures
        p1.circuits.len() <= p1.config.max_pool_size,
{
    let new = seq![id];
    assert(new[0] == id);
    assert forall|x: u64| #[trigger] p1.circuits.dom().contains(x) == p0.circuits.dom().insert(
        id,
    ).contains(x) by {
        if new.contains(x) {
            let i = choose|i: int| 0 <= i < new.len() && new[i] == x;
        }
        assert(new.contains(new[0]));
    }
    assert(p1.circuits.dom() =~= p0.circuits.dom().insert(id));
}

/// Giving a circuit back undoes taking it, but for its record of use.
pub proof fn law_release_undoes_acquire(c: PoolCircuit, now: Instant)
    requires
        c.state == PoolCircuitState::Ready,
    ensures
        c.used(now).freed() == (PoolCircuit {
            last_used: Some(now),
            use_count: (c.use_count + 1) as u64,
            is_dirty: true,
            ..c
        }),
{
}

/// A circuit that is given back is gone, from the pool, its queue and the monitor,
/// where it has served its time; where it has not, it stays, is in use no longer, and
/// waits in the queue where it is ready.
pub proof fn law_what_a_release_does(
    p0: CircuitPool,
    s0: Supply,
    circuit_id: CircuitId,
    s1: Supply,
    now: Instant,
)
    requires
        p0.wf(),
        s0.pool == p0@,
        p0.circuits@.dom().contains(circuit_id),
        given_back(s0, circuit_id, s1, now),
    ensures
        served(p0.config, p0.circuits@[circuit_id], now) ==> !s1.pool.circuits.dom().contains(
            circuit_id,
        ) && !s1.pool.queue.contains(circuit_id) && !s1.metrics.dom().contains(circuit_id),
        !served(p0.config, p0.circuits@[circuit_id], now) ==> {
            &&& s1.pool.circuits.dom().contains(circuit_id)
            &&& s1.pool.circuits[circuit_id].state != PoolCircuitState::InUse
            &&& s1.pool.circuits[circuit_id].use_count == p0.circuits@[circuit_id].use_count
            &&& p0.circuits@[circuit_id].state == PoolCircuitState::InUse ==> s1.pool.queue.contains(
                circuit_id,
            )
            &&& s1.metrics == s0.metrics
            &&& s1.pool.next_id == s0.pool.next_id
        },
{
    let c = p0.circuits@[circuit_id];
    if served(p0.config, c, now) {
        law_retired_circuits_are_gone(p0, s0, circuit_id, RetireReason::UseCount, s1, now);
    } else if c.state == PoolCircuitState::InUse {
        let queue = s0.pool.queue;
        if !queue.contains(circuit_id) {
            assert(queue.push(circuit_id)[queue.len() as int] == circuit_id);
        }
    }
}

/// First come, first served: where the circuit at the front of the queue is not worn
/// out, it is the one that is handed out, and those behind it move up by one.
#[verifier::spinoff_prover]
pub proof fn law_first_come_first_served(
    p0: PoolView,
    config: HealthMonitorConfig,
    m0: Map<u64, CircuitMetrics>,
    now: Instant,
    got: Option<u64>,
    p1: PoolView,
    m1: Map<u64, CircuitMetrics>,
)
    requires
        outlined(p0, config, m0, now, got, p1, m1),
        p0.queue.len() > 0,
        !worn(config, m0, p0.queue[0], now),
    ensures
        got == Some(p0.queue[0]),
        p1.queue == p0.queue.skip(1) + p1.queue.skip(p0.queue.len() - 1),
{
    let q = p0.queue;
    assert(fit_queue(q, config, m0, p0.circuits.dom(), now) == q);
}

} // verus!
