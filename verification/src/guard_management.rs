//! Guard Management Module
//!
//! Implements countermeasures against guard discovery attacks (Overlier-Syverson)
//! including vanguards, layered guards, and rotation policies.

use crate::maps;
use crate::names::NameMap;
use crate::random;
use crate::ratio::Ratio;
use crate::reading;
use crate::reading::{Reading, ONE, ONE_HALF, THREE_TENTHS};
use crate::text;
use crate::time::{elapsed, secs, Duration, Instant};
use crate::{GuardInfo, GuardLayer, RoutingConfig, RoutingError, RoutingFailure, SecurityLevel};
use std::collections::VecDeque;
use vstd::arithmetic::power2::pow2;
use vstd::hash_set::StringHashSet;
use vstd::prelude::*;
use vstd::string::*;

verus! {

/// Guard manager for secure guard selection and rotation
pub struct GuardManager {
    /// Configuration
    pub config: RoutingConfig,
    /// First layer guards (entry)
    pub first_layer: Vec<GuardEntry>,
    /// Second layer guards (middle/vanguards)
    pub second_layer: Vec<GuardEntry>,
    /// Third layer guards (additional protection)
    pub third_layer: Vec<GuardEntry>,
    /// Rotation scheduler
    pub rotation_scheduler: RotationScheduler,
    /// Guard usage statistics
    pub usage_stats: NameMap<GuardStats>,
}

/// Guard entry with metadata
#[derive(Debug, Clone)]
pub struct GuardEntry {
    /// The guard
    pub info: GuardInfo,
    /// When it was added
    pub added_at: Instant,
    /// When it was last used
    pub last_used: Option<Instant>,
    /// How often it was used
    pub use_count: u64,
    /// How often it failed
    pub failure_count: u64,
    /// Its reputation, between zero and one
    pub reputation: Reading,
}

/// Guard statistics
#[derive(Debug, Clone, Copy, PartialEq, Eq, Structural)]
pub struct GuardStats {
    /// Circuits through the guard
    pub total_circuits: u64,
    /// Circuits that failed
    pub failed_circuits: u64,
    /// Bytes through the guard
    pub bytes_transferred: u64,
    /// Average latency
    pub avg_latency: Duration,
}

/// The statistics of a guard that was never used.
pub open spec fn no_stats() -> GuardStats {
    GuardStats {
        total_circuits: 0,
        failed_circuits: 0,
        bytes_transferred: 0,
        avg_latency: Duration { nanos: 0 },
    }
}

/// Rotation scheduler
#[derive(Debug, Clone, Copy, PartialEq, Eq, Structural)]
pub struct RotationScheduler {
    /// First layer rotation interval
    pub first_layer_interval: Duration,
    /// Second layer rotation interval
    pub second_layer_interval: Duration,
    /// Third layer rotation interval
    pub third_layer_interval: Duration,
    /// Last rotation of the first layer
    pub first_rotation: Option<Instant>,
    /// Last rotation of the second layer
    pub second_rotation: Option<Instant>,
    /// Last rotation of the third layer
    pub third_rotation: Option<Instant>,
}

/// How old a guard of a layer may get, in nanoseconds: ninety, thirty or seven
/// days.
pub open spec fn max_age(layer: GuardLayer) -> int {
    match layer {
        GuardLayer::First => 7_776_000_000_000_000,
        GuardLayer::Second => 2_592_000_000_000_000,
        GuardLayer::Third => 604_800_000_000_000,
    }
}

/// The guards that stay in a layer when it is rotated: those that are young
/// enough and have a reputation above three tenths.
pub open spec fn stays(layer: GuardLayer, now: Instant) -> spec_fn(GuardEntry) -> bool {
    |g: GuardEntry| elapsed(now, g.added_at) < max_age(layer) && g.reputation.above(THREE_TENTHS)
}

/// The guards that can be selected: those with a reputation above a half.
pub open spec fn reputable() -> spec_fn(GuardEntry) -> bool {
    |g: GuardEntry| g.reputation.above(ONE_HALF)
}

/// The guards of a layer that can be selected.
pub open spec fn candidates(layer: Seq<GuardEntry>) -> Seq<GuardEntry> {
    layer.filter(reputable())
}

/// The bandwidth of guards together.
pub open spec fn bandwidth_of(guards: Seq<GuardEntry>) -> nat
    decreases guards.len(),
{
    if guards.len() == 0 {
        0
    } else {
        bandwidth_of(guards.drop_last()) + guards.last().info.bandwidth as nat
    }
}

/// Whether the guard at `i` is the one that a number picks: the guards before it
/// have no more bandwidth than the number, and together with it they have more.
pub open spec fn picks(guards: Seq<GuardEntry>, choice: u64, i: int) -> bool {
    0 <= i < guards.len() && bandwidth_of(guards.take(i)) <= choice < bandwidth_of(
        guards.take(i + 1),
    )
}

/// Whether a guard of a layer can be drawn by bandwidth: none can be selected at
/// all, or those that can have some bandwidth, and no more than can be counted.
pub open spec fn drawable(layer: Seq<GuardEntry>) -> bool {
    candidates(layer).len() > 0 ==> 0 < bandwidth_of(candidates(layer)) <= u64::MAX
}

/// Whether a number draws a guard of a layer.
pub open spec fn in_range(layer: Seq<GuardEntry>, choice: u64) -> bool {
    candidates(layer).len() > 0 ==> choice < bandwidth_of(candidates(layer))
}

/// The guard of a layer that a number draws, if there is one.
pub open spec fn drawn(layer: Seq<GuardEntry>, choice: u64) -> Seq<GuardInfo> {
    if candidates(layer).len() == 0 {
        Seq::empty()
    } else {
        let i = choose|i: int| #[trigger] picks(candidates(layer), choice, i);
        seq![candidates(layer)[i].info]
    }
}

/// A guard as a list.
pub open spec fn one_or_none(guard: Option<GuardInfo>) -> Seq<GuardInfo> {
    match guard {
        Some(g) => seq![g],
        None => Seq::empty(),
    }
}

/// Whether a number in range draws this guard, or none where there is none.
pub open spec fn may_draw(layer: Seq<GuardEntry>, choice: u64, guard: Option<GuardInfo>) -> bool {
    in_range(layer, choice) && drawn(layer, choice) == one_or_none(guard)
}

proof fn lemma_bandwidth_part(guards: Seq<GuardEntry>, i: int, j: int)
    requires
        0 <= i <= j <= guards.len(),
    ensures
        bandwidth_of(guards.take(i)) <= bandwidth_of(guards.take(j)),
    decreases j - i,
{
    if i < j {
        lemma_bandwidth_part(guards, i, j - 1);
        assert(guards.take(j).drop_last() =~= guards.take(j - 1));
    }
}

/// A number below the bandwidth of all guards together picks exactly one of
/// them, and each guard is picked by as many numbers as it has bandwidth.
pub proof fn law_selection_is_weighted(guards: Seq<GuardEntry>, choice: u64, i: int, j: int)
    requires
        picks(guards, choice, i),
    ensures
        picks(guards, choice, j) ==> i == j,
        bandwidth_of(guards.take(i + 1)) - bandwidth_of(guards.take(i)) == guards[i].info.bandwidth,
{
    assert(guards.take(i + 1).drop_last() =~= guards.take(i));
    if picks(guards, choice, j) {
        if i < j {
            lemma_bandwidth_part(guards, i + 1, j);
        }
        if j < i {
            lemma_bandwidth_part(guards, j + 1, i);
        }
    }
}

/// No guard that is too old or has too low a reputation stays in a layer that is
/// rotated.
pub proof fn law_rotation_removes_stale_guards(
    guards: Seq<GuardEntry>,
    layer: GuardLayer,
    now: Instant,
    i: int,
)
    requires
        0 <= i < guards.filter(stays(layer, now)).len(),
    ensures
        elapsed(now, guards.filter(stays(layer, now))[i].added_at) < max_age(layer),
        guards.filter(stays(layer, now))[i].reputation.above(THREE_TENTHS),
        guards.contains(guards.filter(stays(layer, now))[i]),
{
    broadcast use vstd::seq_lib::group_filter_ensures;

    let rest = guards.filter(stays(layer, now));
    assert(rest.contains(rest[i]));
    guards.lemma_filter_contains_rev(stays(layer, now), rest[i]);
    assert(stays(layer, now)(rest[i]));
}

/// A guard stays in a layer that is rotated exactly if it was in it, was added less
/// than ninety, thirty or seven days ago, as the layer is the first, the second or
/// the third, and has a reputation above 0.3, which is here multiplied by 2 to the
/// power 1074.
pub proof fn law_who_stays_in_a_layer(
    guards: Seq<GuardEntry>,
    layer: GuardLayer,
    now: Instant,
    g: GuardEntry,
)
    requires
        g.reputation.finite(),
    ensures
        guards.filter(stays(layer, now)).contains(g) <==> guards.contains(g) && now.nanos
            - g.added_at.nanos < secs(
            24 * 60 * 60 * match layer {
                GuardLayer::First => 90int,
                GuardLayer::Second => 30,
                GuardLayer::Third => 7,
            },
        ) && g.reputation.scaled() > 5404319552844595 * pow2(1020),
{
    maps::lemma_filter_members(guards, stays(layer, now), g);
    reading::law_marks_are_exact();
    reading::law_order_of_patterns(Reading { bits: THREE_TENTHS }, g.reputation);
}

/// A guard can be selected exactly if it is in the layer and has a reputation above
/// a half, which is here multiplied by 2 to the power 1074.
pub proof fn law_who_can_be_selected(layer: Seq<GuardEntry>, g: GuardEntry)
    requires
        g.reputation.finite(),
    ensures
        candidates(layer).contains(g) <==> layer.contains(g) && 2 * g.reputation.scaled() > pow2(
            1074,
        ),
{
    maps::lemma_filter_members(layer, reputable(), g);
    reading::law_marks_are_exact();
    reading::law_order_of_patterns(Reading { bits: ONE_HALF }, g.reputation);
    vstd::arithmetic::power2::lemma_pow2_unfold(1074);
}

proof fn lemma_some_guard_is_picked(guards: Seq<GuardEntry>, choice: u64) -> (i: int)
    requires
        choice < bandwidth_of(guards),
    ensures
        picks(guards, choice, i),
    decreases guards.len(),
{
    let n = guards.len() - 1;
    let less = guards.drop_last();
    assert(guards.take(n) =~= less);
    assert(guards.take(n + 1) =~= guards);
    if choice < bandwidth_of(less) {
        let i = lemma_some_guard_is_picked(less, choice);
        assert(less.take(i) =~= guards.take(i));
        assert(less.take(i + 1) =~= guards.take(i + 1));
        i
    } else {
        n
    }
}

/// A number in range draws one guard, which is in the layer, has a reputation above
/// a half and has some bandwidth; and where no guard can be selected, none is drawn.
pub proof fn law_drawn_guards_are_reputable(layer: Seq<GuardEntry>, choice: u64)
    requires
        in_range(layer, choice),
    ensures
        drawn(layer, choice).len() <= 1,
        drawn(layer, choice).len() == 0 <==> forall|i: int|
            0 <= i < layer.len() ==> !(#[trigger] layer[i]).reputation.above(ONE_HALF),
        drawn(layer, choice).len() == 1 ==> exists|i: int|
            0 <= i < layer.len() && (#[trigger] layer[i]).reputation.above(ONE_HALF)
                && layer[i].info == drawn(layer, choice)[0] && layer[i].info.bandwidth > 0,
{
    let all = candidates(layer);
    if all.len() > 0 {
        let k = lemma_some_guard_is_picked(all, choice);
        let i = choose|i: int| #[trigger] picks(all, choice, i);
        assert(all.take(i + 1).drop_last() =~= all.take(i));
        assert(all.contains(all[i]));
        maps::lemma_filter_members(layer, reputable(), all[i]);
        let j = choose|j: int| 0 <= j < layer.len() && layer[j] == all[i];
        assert(layer[j].reputation.above(ONE_HALF));
    } else {
        assert forall|i: int| 0 <= i < layer.len() implies !(
        #[trigger] layer[i]).reputation.above(ONE_HALF) by {
            maps::lemma_filter_members(layer, reputable(), layer[i]);
            if all.contains(layer[i]) {
                assert(false);
            }
        }
    }
}

/// Every guard with a reputation above a half and some bandwidth is drawn by some
/// number in range: by the one that the bandwidth of those before it amounts to.
pub proof fn law_every_reputable_guard_can_be_drawn(layer: Seq<GuardEntry>, i: int)
    requires
        0 <= i < candidates(layer).len(),
        candidates(layer)[i].info.bandwidth > 0,
        bandwidth_of(candidates(layer)) <= u64::MAX,
    ensures
        ({
            let choice = bandwidth_of(candidates(layer).take(i)) as u64;
            &&& in_range(layer, choice)
            &&& drawn(layer, choice) == seq![candidates(layer)[i].info]
        }),
{
    let all = candidates(layer);
    let n = all.len() as int;
    lemma_bandwidth_part(all, i, n);
    lemma_bandwidth_part(all, i + 1, n);
    assert(all.take(n) =~= all);
    assert(all.take(i + 1).drop_last() =~= all.take(i));
    let choice = bandwidth_of(all.take(i)) as u64;
    assert(picks(all, choice, i));
    let k = choose|k: int| #[trigger] picks(all, choice, k);
    law_selection_is_weighted(all, choice, i, k);
}

/// A guard can be drawn where there is one to select exactly if those that can be
/// selected have some bandwidth, and no more than can be counted; the number zero then
/// draws one.
pub proof fn law_what_can_be_drawn(layer: Seq<GuardEntry>)
    requires
        candidates(layer).len() > 0,
    ensures
        drawable(layer) ==> in_range(layer, 0) && drawn(layer, 0).len() == 1,
        bandwidth_of(candidates(layer)) == 0 ==> !drawable(layer),
        0 < bandwidth_of(candidates(layer)) <= u64::MAX ==> drawable(layer),
        bandwidth_of(candidates(layer)) > u64::MAX ==> !drawable(layer),
{
}

/// The bandwidth of guards together does not depend on how they are split.
pub proof fn law_bandwidth_adds_up(a: Seq<GuardEntry>, b: Seq<GuardEntry>)
    ensures
        bandwidth_of(a + b) == bandwidth_of(a) + bandwidth_of(b),
    decreases b.len(),
{
    if b.len() == 0 {
        assert(a + b =~= a);
    } else {
        law_bandwidth_adds_up(a, b.drop_last());
        assert((a + b).drop_last() =~= a + b.drop_last());
    }
}

impl GuardManager {
    /// Whether the records are sound.
    pub open spec fn wf(self) -> bool {
        self.usage_stats.wf()
    }

    /// The guards of a layer.
    pub open spec fn layer(self, layer: GuardLayer) -> Seq<GuardEntry> {
        match layer {
            GuardLayer::First => self.first_layer@,
            GuardLayer::Second => self.second_layer@,
            GuardLayer::Third => self.third_layer@,
        }
    }

    /// When a layer was last rotated.
    pub open spec fn last_rotation(self, layer: GuardLayer) -> Option<Instant> {
        match layer {
            GuardLayer::First => self.rotation_scheduler.first_rotation,
            GuardLayer::Second => self.rotation_scheduler.second_rotation,
            GuardLayer::Third => self.rotation_scheduler.third_rotation,
        }
    }

    /// How long a layer stays before it is rotated.
    pub open spec fn interval(self, layer: GuardLayer) -> Duration {
        match layer {
            GuardLayer::First => self.rotation_scheduler.first_layer_interval,
            GuardLayer::Second => self.rotation_scheduler.second_layer_interval,
            GuardLayer::Third => self.rotation_scheduler.third_layer_interval,
        }
    }

    /// Whether a layer is due for rotation: it was never rotated, or not for
    /// longer than its interval.
    pub open spec fn rotation_due(self, layer: GuardLayer, now: Instant) -> bool {
        match self.last_rotation(layer) {
            Some(last) => elapsed(now, last) > self.interval(layer).nanos,
            None => true,
        }
    }

    fn is_overdue(last: Option<Instant>, interval: Duration, now: Instant) -> (r: bool)
        ensures
            r == match last {
                Some(at) => elapsed(now, at) > interval.nanos,
                None => true,
            },
    {
        match last {
            Some(at) => now.duration_since(at).nanos > interval.nanos,
            None => true,
        }
    }

    /// How many layers the guards of a circuit come from.
    pub open spec fn depth(self) -> int {
        match self.config.security_level {
            SecurityLevel::Standard => 1,
            SecurityLevel::Enhanced => 2,
            SecurityLevel::Maximum => 3,
        }
    }

    /// The guards that three numbers draw, one from each layer that is used.
    pub open spec fn selection(self, first: u64, second: u64, third: u64) -> Seq<GuardInfo> {
        drawn(self.first_layer@, first) + (if self.depth() >= 2 {
            drawn(self.second_layer@, second)
        } else {
            Seq::empty()
        }) + (if self.depth() >= 3 {
            drawn(self.third_layer@, third)
        } else {
            Seq::empty()
        })
    }

    /// Whether guards can be drawn from each layer that is used.
    pub open spec fn selectable(self) -> bool {
        &&& drawable(self.first_layer@)
        &&& self.depth() >= 2 ==> drawable(self.second_layer@)
        &&& self.depth() >= 3 ==> drawable(self.third_layer@)
    }

    /// Whether the manager is new: it has no guards.
    pub open spec fn is_new(self, config: RoutingConfig) -> bool {
        &&& self.config == config
        &&& forall|layer: GuardLayer| #[trigger] self.layer(layer) == Seq::<GuardEntry>::empty()
        &&& forall|layer: GuardLayer| #[trigger] self.interval(layer).nanos == max_age(layer)
        &&& forall|layer: GuardLayer| #[trigger] self.last_rotation(layer) is None
        &&& self.usage_stats@ == Map::<Seq<char>, GuardStats>::empty()
    }

    /// Create new guard manager
    pub fn new(config: RoutingConfig) -> (r: GuardManager)
        ensures
            r.wf(),
            r.is_new(config),
    {
        GuardManager {
            config,
            first_layer: Vec::new(),
            second_layer: Vec::new(),
            third_layer: Vec::new(),
            rotation_scheduler: RotationScheduler {
                first_layer_interval: Duration::from_secs(90 * 24 * 60 * 60),
                second_layer_interval: Duration::from_secs(30 * 24 * 60 * 60),
                third_layer_interval: Duration::from_secs(7 * 24 * 60 * 60),
                first_rotation: None,
                second_rotation: None,
                third_rotation: None,
            },
            usage_stats: NameMap::new(),
        }
    }

    /// Rotates the layers that are due
    pub fn rotate_due_layers(&mut self, now: Instant)
        requires
            old(self).wf(),
        ensures
            final(self).wf(),
            final(self).config == old(self).config,
            final(self).usage_stats == old(self).usage_stats,
            forall|layer: GuardLayer| #[trigger] final(self).interval(layer) == old(self).interval(layer),
            forall|layer: GuardLayer| #[trigger]
                final(self).layer(layer) == (if old(self).rotation_due(layer, now) {
                    old(self).layer(layer).filter(stays(layer, now))
                } else {
                    old(self).layer(layer)
                }),
            forall|layer: GuardLayer| #[trigger]
                final(self).last_rotation(layer) == (if old(self).rotation_due(layer, now) {
                    Some(now)
                } else {
                    old(self).last_rotation(layer)
                }),
    {
        if Self::is_overdue(
            self.rotation_scheduler.first_rotation,
            self.rotation_scheduler.first_layer_interval,
            now,
        ) {
            Self::rotate_layer(&mut self.first_layer, GuardLayer::First, now);
            self.rotation_scheduler.first_rotation = Some(now);
        }
        if Self::is_overdue(
            self.rotation_scheduler.second_rotation,
            self.rotation_scheduler.second_layer_interval,
            now,
        ) {
            Self::rotate_layer(&mut self.second_layer, GuardLayer::Second, now);
            self.rotation_scheduler.second_rotation = Some(now);
        }
        if Self::is_overdue(
            self.rotation_scheduler.third_rotation,
            self.rotation_scheduler.third_layer_interval,
            now,
        ) {
            Self::rotate_layer(&mut self.third_layer, GuardLayer::Third, now);
            self.rotation_scheduler.third_rotation = Some(now);
        }
    }

    /// Select guards for circuit, at random by bandwidth
    pub fn select_guards(&self) -> (r: Result<Vec<GuardInfo>, RoutingError>)
        requires
            self.selectable(),
        ensures
            exists|first: u64, second: u64, third: u64| #[trigger]
                self.selects(first, second, third, r),
    {
        let first = Self::select_best_guard(&self.first_layer);
        let mut second: Option<GuardInfo> = None;
        let mut third: Option<GuardInfo> = None;
        let ghost c1 = choose|c: u64| #[trigger] may_draw(self.first_layer@, c, first);
        let ghost mut c2 = 0u64;
        let ghost mut c3 = 0u64;
        match self.config.security_level {
            SecurityLevel::Standard => {},
            SecurityLevel::Enhanced => {
                second = Self::select_best_guard(&self.second_layer);
                proof {
                    c2 = choose|c: u64| #[trigger] may_draw(self.second_layer@, c, second);
                }
            },
            SecurityLevel::Maximum => {
                second = Self::select_best_guard(&self.second_layer);
                third = Self::select_best_guard(&self.third_layer);
                proof {
                    c2 = choose|c: u64| #[trigger] may_draw(self.second_layer@, c, second);
                    c3 = choose|c: u64| #[trigger] may_draw(self.third_layer@, c, third);
                }
            },
        }
        let r = Self::collect_guards(first, second, third);
        assert(self.selects(c1, c2, c3, r)) by {
            assert(self.selection(c1, c2, c3) =~= one_or_none(first) + one_or_none(second)
                + one_or_none(third));
        }
        r
    }

    /// Select best guard from layer, at random by bandwidth
    pub fn select_best_guard(layer: &Vec<GuardEntry>) -> (r: Option<GuardInfo>)
        requires
            drawable(layer@),
        ensures
            exists|choice: u64| #[trigger] may_draw(layer@, choice, r),
    {
        let choice: u64 = Self::draw(layer);
        let r = Self::pick_guard(layer, choice);
        assert(may_draw(layer@, choice, r));
        r
    }

    /// The guards that were selected; without any it is an error
    fn collect_guards(
        first: Option<GuardInfo>,
        second: Option<GuardInfo>,
        third: Option<GuardInfo>,
    ) -> (r: Result<Vec<GuardInfo>, RoutingError>)
        ensures
            ({
                let all = one_or_none(first) + one_or_none(second) + one_or_none(third);
                if all.len() == 0 {
                    r matches Err(e) && e@ == RoutingFailure::GuardSelectionFailed(
                        "No guards available"@,
                    )
                } else {
                    r matches Ok(guards) && guards@ == all
                }
            }),
    {
        let ghost all = one_or_none(first) + one_or_none(second) + one_or_none(third);
        let mut guards: Vec<GuardInfo> = Vec::new();
        match first {
            Some(guard) => {
                guards.push(guard);
            },
            None => {},
        }
        match second {
            Some(guard) => {
                guards.push(guard);
            },
            None => {},
        }
        match third {
            Some(guard) => {
                guards.push(guard);
            },
            None => {},
        }
        assert(guards@ =~= all);
        if guards.len() == 0 {
            return Err(RoutingError::GuardSelectionFailed("No guards available".to_owned()));
        }
        Ok(guards)
    }

    /// Whether three numbers are in range and the selection that they draw is
    /// the outcome; without any guard it fails.
    pub open spec fn selects(
        self,
        first: u64,
        second: u64,
        third: u64,
        r: Result<Vec<GuardInfo>, RoutingError>,
    ) -> bool {
        &&& in_range(self.first_layer@, first)
        &&& self.depth() >= 2 ==> in_range(self.second_layer@, second)
        &&& self.depth() >= 3 ==> in_range(self.third_layer@, third)
        &&& if self.selection(first, second, third).len() == 0 {
            r matches Err(e) && e@ == RoutingFailure::GuardSelectionFailed("No guards available"@)
        } else {
            r matches Ok(guards) && guards@ == self.selection(first, second, third)
        }
    }

    /// Selects the guards that three numbers draw
    pub fn select_drawn(&self, first: u64, second: u64, third: u64) -> (r: Result<
        Vec<GuardInfo>,
        RoutingError,
    >)
        requires
            self.selectable(),
            in_range(self.first_layer@, first),
            self.depth() >= 2 ==> in_range(self.second_layer@, second),
            self.depth() >= 3 ==> in_range(self.third_layer@, third),
        ensures
            self.selects(first, second, third, r),
    {
        let num_guards: usize = match self.config.security_level {
            SecurityLevel::Standard => 1,
            SecurityLevel::Enhanced => 2,
            SecurityLevel::Maximum => 3,
        };
        let one = Self::pick_guard(&self.first_layer, first);
        let two = if num_guards >= 2 {
            Self::pick_guard(&self.second_layer, second)
        } else {
            None
        };
        let three = if num_guards >= 3 {
            Self::pick_guard(&self.third_layer, third)
        } else {
            None
        };
        assert(self.selection(first, second, third) =~= one_or_none(one) + one_or_none(two)
            + one_or_none(three));
        Self::collect_guards(one, two, three)
    }

    fn draw(layer: &Vec<GuardEntry>) -> (r: u64)
        requires
            drawable(layer@),
        ensures
            in_range(layer@, r),
    {
        let chosen = Self::filter_reputable(layer);
        if chosen.len() == 0 {
            return 0;
        }
        let total: u64 = Self::total_bandwidth(layer, &chosen);
        random::random_below(total)
    }

    /// Whether guards can be drawn from each layer that is used
    pub fn can_select(&self) -> (r: bool)
        ensures
            r == self.selectable(),
    {
        let first = Self::can_draw(&self.first_layer);
        match self.config.security_level {
            SecurityLevel::Standard => first,
            SecurityLevel::Enhanced => first && Self::can_draw(&self.second_layer),
            SecurityLevel::Maximum => first && Self::can_draw(&self.second_layer)
                && Self::can_draw(&self.third_layer),
        }
    }

    fn can_draw(layer: &Vec<GuardEntry>) -> (r: bool)
        ensures
            r == drawable(layer@),
    {
        let chosen = Self::filter_reputable(layer);
        if chosen.len() == 0 {
            return true;
        }
        let ghost all = candidates(layer@);
        let mut total: u64 = 0;
        let mut i: usize = 0;
        assert(all.take(0) =~= Seq::<GuardEntry>::empty());
        while i < chosen.len()
            invariant
                all == candidates(layer@),
                all.len() > 0,
                chosen@.len() == all.len(),
                forall|k: int|
                    0 <= k < chosen@.len() ==> (#[trigger] chosen@[k]) < layer@.len()
                        && layer@[chosen@[k] as int] == all[k],
                i <= chosen@.len(),
                total == bandwidth_of(all.take(i as int)),
            decreases chosen@.len() - i,
        {
            proof {
                assert(all.take(i + 1).drop_last() =~= all.take(i as int));
                lemma_bandwidth_part(all, i + 1, all.len() as int);
                assert(all.take(all.len() as int) =~= all);
            }
            match total.checked_add(layer[chosen[i]].info.bandwidth) {
                Some(sum) => {
                    total = sum;
                },
                None => {
                    return false;
                },
            }
            i = i + 1;
        }
        assert(all.take(i as int) =~= all);
        total > 0
    }

    /// The places of the guards that can be selected
    fn filter_reputable(layer: &Vec<GuardEntry>) -> (r: Vec<usize>)
        ensures
            r@.len() == candidates(layer@).len(),
            forall|k: int|
                0 <= k < r@.len() ==> (#[trigger] r@[k]) < layer@.len() && layer@[r@[k] as int]
                    == candidates(layer@)[k],
    {
        let mut r: Vec<usize> = Vec::new();
        let mut i: usize = 0;
        proof {
            reveal(Seq::filter);
        }
        while i < layer.len()
            invariant
                i <= layer@.len(),
                r@.len() == layer@.take(i as int).filter(reputable()).len(),
                forall|k: int|
                    0 <= k < r@.len() ==> (#[trigger] r@[k]) < layer@.len() && layer@[r@[k] as int]
                        == layer@.take(i as int).filter(reputable())[k],
            decreases layer@.len() - i,
        {
            proof {
                reveal(Seq::filter);
                assert(layer@.take(i + 1).drop_last() =~= layer@.take(i as int));
            }
            if layer[i].reputation.exceeds(ONE_HALF) {
                r.push(i);
            }
            i = i + 1;
        }
        assert(layer@.take(i as int) =~= layer@);
        r
    }

    fn total_bandwidth(layer: &Vec<GuardEntry>, chosen: &Vec<usize>) -> (r: u64)
        requires
            chosen@.len() == candidates(layer@).len(),
            forall|k: int|
                0 <= k < chosen@.len() ==> (#[trigger] chosen@[k]) < layer@.len()
                    && layer@[chosen@[k] as int] == candidates(layer@)[k],
            bandwidth_of(candidates(layer@)) <= u64::MAX,
        ensures
            r == bandwidth_of(candidates(layer@)),
    {
        let ghost all = candidates(layer@);
        let mut total: u64 = 0;
        let mut i: usize = 0;
        while i < chosen.len()
            invariant
                all == candidates(layer@),
                chosen@.len() == all.len(),
                forall|k: int|
                    0 <= k < chosen@.len() ==> (#[trigger] chosen@[k]) < layer@.len()
                        && layer@[chosen@[k] as int] == all[k],
                bandwidth_of(all) <= u64::MAX,
                i <= chosen@.len(),
                total == bandwidth_of(all.take(i as int)),
            decreases chosen@.len() - i,
        {
            proof {
                assert(all.take(i + 1).drop_last() =~= all.take(i as int));
                lemma_bandwidth_part(all, i + 1, all.len() as int);
                assert(all.take(all.len() as int) =~= all);
            }
            total = total + layer[chosen[i]].info.bandwidth;
            i = i + 1;
        }
        assert(all.take(i as int) =~= all);
        total
    }

    /// The guard of a layer that a number draws
    pub fn pick_guard(layer: &Vec<GuardEntry>, choice: u64) -> (r: Option<GuardInfo>)
        requires
            in_range(layer@, choice),
        ensures
            one_or_none(r) == drawn(layer@, choice),
    {
        let chosen = Self::filter_reputable(layer);
        let ghost all = candidates(layer@);
        let mut left: u64 = choice;
        let mut i: usize = 0;
        assert(all.take(0) =~= Seq::<GuardEntry>::empty());
        while i < chosen.len()
            invariant
                all == candidates(layer@),
                chosen@.len() == all.len(),
                forall|k: int|
                    0 <= k < chosen@.len() ==> (#[trigger] chosen@[k]) < layer@.len()
                        && layer@[chosen@[k] as int] == all[k],
                i <= chosen@.len(),
                left + bandwidth_of(all.take(i as int)) == choice,
            decreases chosen@.len() - i,
        {
            assert(all.take(i + 1).drop_last() =~= all.take(i as int));
            let bandwidth: u64 = layer[chosen[i]].info.bandwidth;
            if left < bandwidth {
                let guard = layer[chosen[i]].info.clone();
                proof {
                    assert(picks(all, choice, i as int));
                    let j = choose|j: int| #[trigger] picks(all, choice, j);
                    law_selection_is_weighted(all, choice, i as int, j);
                    assert(drawn(layer@, choice) =~= one_or_none(Some(guard)));
                }
                return Some(guard);
            }
            left = left - bandwidth;
            i = i + 1;
        }
        assert(all.take(i as int) =~= all);
        assert(drawn(layer@, choice) =~= one_or_none(None));
        None
    }

    /// Add guard to layer
    pub fn add_guard(&mut self, info: GuardInfo, layer: GuardLayer, now: Instant) -> (r: Result<
        (),
        RoutingError,
    >)
        requires
            old(self).wf(),
        ensures
            final(self).wf(),
            r is Ok,
            final(self).config == old(self).config,
            final(self).rotation_scheduler == old(self).rotation_scheduler,
            final(self).usage_stats == old(self).usage_stats,
            forall|l: GuardLayer| #[trigger]
                final(self).layer(l) == (if l == layer {
                    old(self).layer(l).push(
                        GuardEntry {
                            info,
                            added_at: now,
                            last_used: None,
                            use_count: 0,
                            failure_count: 0,
                            reputation: Reading { bits: ONE },
                        },
                    )
                } else {
                    old(self).layer(l)
                }),
    {
        let entry = GuardEntry {
            info,
            added_at: now,
            last_used: None,
            use_count: 0,
            failure_count: 0,
            reputation: Reading { bits: ONE },
        };
        match layer {
            GuardLayer::First => self.first_layer.push(entry),
            GuardLayer::Second => self.second_layer.push(entry),
            GuardLayer::Third => self.third_layer.push(entry),
        }
        Ok(())
    }

    /// Rotate guards in layer: the oldest and the disreputable ones leave
    pub fn rotate_layer(layer: &mut Vec<GuardEntry>, layer_type: GuardLayer, now: Instant)
        ensures
            final(layer)@ == old(layer)@.filter(stays(layer_type, now)),
    {
        let limit: u64 = match layer_type {
            GuardLayer::First => 7_776_000_000_000_000,
            GuardLayer::Second => 2_592_000_000_000_000,
            GuardLayer::Third => 604_800_000_000_000,
        };
        let mut all: Vec<GuardEntry> = Vec::new();
        std::mem::swap(layer, &mut all);
        let ghost guards = all@;
        proof {
            reveal(Seq::filter);
            assert(guards.take(0) =~= Seq::<GuardEntry>::empty());
        }
        for guard in it: all
            invariant
                it.seq() == guards,
                limit == max_age(layer_type),
                layer@ == guards.take(it.index()).filter(stays(layer_type, now)),
        {
            proof {
                reveal(Seq::filter);
                assert(guards.take(it.index() + 1).drop_last() =~= guards.take(it.index()));
                assert(guards.take(it.index() + 1).last() == guard);
            }
            if now.duration_since(guard.added_at).nanos < limit && guard.reputation.exceeds(
                THREE_TENTHS,
            ) {
                layer.push(guard);
            }
        }
        assert(guards.take(guards.len() as int) =~= guards);
    }

    /// Whether one more circuit of a guard can be counted in a layer.
    pub open spec fn countable(layer: Seq<GuardEntry>, guard_id: Seq<char>) -> bool {
        forall|i: int|
            0 <= i < layer.len() && (#[trigger] layer[i]).info.identity@ == guard_id
                ==> layer[i].use_count < u64::MAX && layer[i].failure_count < u64::MAX
    }

    /// Whether one more circuit of a guard can be counted in every layer.
    pub open spec fn can_count(self, guard_id: Seq<char>) -> bool {
        forall|layer: GuardLayer| Self::countable(#[trigger] self.layer(layer), guard_id)
    }

    /// Whether one more circuit of a guard can be counted in every layer
    pub fn can_report(&self, guard_id: &str) -> (r: bool)
        ensures
            r == self.can_count(guard_id@),
    {
        let r = Self::can_count_in(&self.first_layer, guard_id) && Self::can_count_in(
            &self.second_layer,
            guard_id,
        ) && Self::can_count_in(&self.third_layer, guard_id);
        proof {
            if r {
                assert forall|layer: GuardLayer| Self::countable(
                    #[trigger] self.layer(layer),
                    guard_id@,
                ) by {}
            } else if self.can_count(guard_id@) {
                assert(Self::countable(self.layer(GuardLayer::First), guard_id@));
                assert(Self::countable(self.layer(GuardLayer::Second), guard_id@));
                assert(Self::countable(self.layer(GuardLayer::Third), guard_id@));
            }
        }
        r
    }

    fn can_count_in(layer: &Vec<GuardEntry>, guard_id: &str) -> (r: bool)
        ensures
            r == Self::countable(layer@, guard_id@),
    {
        let mut i: usize = 0;
        while i < layer.len()
            invariant
                i <= layer@.len(),
                forall|k: int|
                    0 <= k < i && (#[trigger] layer@[k]).info.identity@ == guard_id@
                        ==> layer@[k].use_count < u64::MAX && layer@[k].failure_count < u64::MAX,
            decreases layer@.len() - i,
        {
            if text::same(layer[i].info.identity.as_str(), guard_id) && (layer[i].use_count
                == u64::MAX || layer[i].failure_count == u64::MAX) {
                assert(layer@[i as int].info.identity@ == guard_id@);
                return false;
            }
            i = i + 1;
        }
        true
    }

    /// Report guard failure. `next` is the new reputation after an old one:
    /// eight tenths of it.
    pub fn report_failure<F: Fn(Reading) -> Reading>(&mut self, guard_id: &str, next: F)
        requires
            old(self).wf(),
            old(self).can_count(guard_id@),
            old(self).usage_stats@.dom().contains(guard_id@) ==> old(
                self,
            ).usage_stats@[guard_id@].failed_circuits < u64::MAX,
            forall|x: Reading| call_requires(next, (x,)),
        ensures
            final(self).wf(),
            final(self).config == old(self).config,
            final(self).rotation_scheduler == old(self).rotation_scheduler,
            forall|layer: GuardLayer|
                rated(
                    old(self).layer(layer),
                    #[trigger] final(self).layer(layer),
                    guard_id@,
                    false,
                    next,
                ),
            final(self).usage_stats@ == (if old(self).usage_stats@.dom().contains(guard_id@) {
                let stat = old(self).usage_stats@[guard_id@];
                old(self).usage_stats@.insert(
                    guard_id@,
                    GuardStats { failed_circuits: (stat.failed_circuits + 1) as u64, ..stat },
                )
            } else {
                old(self).usage_stats@
            }),
    {
        match self.usage_stats.remove(guard_id) {
            Some(mut stat) => {
                stat.failed_circuits = stat.failed_circuits + 1;
                self.usage_stats.insert(guard_id, stat);
                assert(self.usage_stats@ =~= old(self).usage_stats@.insert(guard_id@, stat));
            },
            None => {
                assert(self.usage_stats@ =~= old(self).usage_stats@);
            },
        }
        let ghost before = *self;
        assert forall|layer: GuardLayer| #[trigger] before.layer(layer) == old(self).layer(layer) by {
        }
        assert(before.can_count(guard_id@)) by {
            assert forall|layer: GuardLayer| Self::countable(
                #[trigger] before.layer(layer),
                guard_id@,
            ) by {
                assert(Self::countable(old(self).layer(layer), guard_id@));
            }
        }
        self.update_reputation(guard_id, false, next);
    }

    /// Report guard success. `next` is the new reputation after an old one: nine
    /// tenths of it and a tenth more, up to one.
    pub fn report_success<F: Fn(Reading) -> Reading>(&mut self, guard_id: &str, bytes: u64, next: F)
        requires
            old(self).wf(),
            old(self).can_count(guard_id@),
            old(self).stats_of(guard_id@).total_circuits < u64::MAX,
            old(self).stats_of(guard_id@).bytes_transferred + bytes <= u64::MAX,
            forall|x: Reading| call_requires(next, (x,)),
        ensures
            final(self).wf(),
            final(self).config == old(self).config,
            final(self).rotation_scheduler == old(self).rotation_scheduler,
            forall|layer: GuardLayer|
                rated(
                    old(self).layer(layer),
                    #[trigger] final(self).layer(layer),
                    guard_id@,
                    true,
                    next,
                ),
            final(self).usage_stats@ == old(self).usage_stats@.insert(
                guard_id@,
                GuardStats {
                    total_circuits: (old(self).stats_of(guard_id@).total_circuits + 1) as u64,
                    bytes_transferred: (old(self).stats_of(guard_id@).bytes_transferred
                        + bytes) as u64,
                    ..old(self).stats_of(guard_id@)
                },
            ),
    {
        let mut stat = match self.usage_stats.remove(guard_id) {
            Some(stat) => stat,
            None => GuardStats {
                total_circuits: 0,
                failed_circuits: 0,
                bytes_transferred: 0,
                avg_latency: Duration { nanos: 0 },
            },
        };
        stat.total_circuits = stat.total_circuits + 1;
        stat.bytes_transferred = stat.bytes_transferred + bytes;
        self.usage_stats.insert(guard_id, stat);
        assert(self.usage_stats@ =~= old(self).usage_stats@.insert(guard_id@, stat));
        let ghost before = *self;
        assert forall|layer: GuardLayer| #[trigger] before.layer(layer) == old(self).layer(layer) by {
        }
        assert(before.can_count(guard_id@)) by {
            assert forall|layer: GuardLayer| Self::countable(
                #[trigger] before.layer(layer),
                guard_id@,
            ) by {
                assert(Self::countable(old(self).layer(layer), guard_id@));
            }
        }
        self.update_reputation(guard_id, true, next);
    }

    /// The statistics of a guard, at first none.
    pub open spec fn stats_of(self, guard_id: Seq<char>) -> GuardStats {
        if self.usage_stats@.dom().contains(guard_id) {
            self.usage_stats@[guard_id]
        } else {
            no_stats()
        }
    }

    /// Update guard reputation in all layers
    pub fn update_reputation<F: Fn(Reading) -> Reading>(
        &mut self,
        guard_id: &str,
        success: bool,
        next: F,
    )
        requires
            old(self).wf(),
            old(self).can_count(guard_id@),
            forall|x: Reading| call_requires(next, (x,)),
        ensures
            final(self).wf(),
            final(self).config == old(self).config,
            final(self).rotation_scheduler == old(self).rotation_scheduler,
            final(self).usage_stats == old(self).usage_stats,
            forall|layer: GuardLayer|
                rated(
                    old(self).layer(layer),
                    #[trigger] final(self).layer(layer),
                    guard_id@,
                    success,
                    next,
                ),
    {
        proof {
            assert(Self::countable(self.layer(GuardLayer::First), guard_id@));
            assert(Self::countable(self.layer(GuardLayer::Second), guard_id@));
            assert(Self::countable(self.layer(GuardLayer::Third), guard_id@));
        }
        rate_layer(&mut self.first_layer, guard_id, success, &next);
        rate_layer(&mut self.second_layer, guard_id, success, &next);
        rate_layer(&mut self.third_layer, guard_id, success, &next);
    }
}

/// A selection holds at most one guard from each layer that is used.
pub proof fn law_one_guard_per_layer(manager: GuardManager, first: u64, second: u64, third: u64)
    ensures
        manager.selection(first, second, third).len() <= manager.depth(),
{
}

/// With guards to select in every layer, a circuit gets one guard at the standard
/// level, two at the enhanced and three at the maximum, in the order of the layers.
pub proof fn law_guards_by_level(manager: GuardManager, first: u64, second: u64, third: u64)
    requires
        forall|layer: GuardLayer| candidates(#[trigger] manager.layer(layer)).len() > 0,
    ensures
        ({
            let all = manager.selection(first, second, third);
            let level = manager.config.security_level;
            &&& level == SecurityLevel::Standard ==> all == drawn(manager.first_layer@, first)
                && all.len() == 1
            &&& level == SecurityLevel::Enhanced ==> all == drawn(manager.first_layer@, first)
                + drawn(manager.second_layer@, second) && all.len() == 2
            &&& level == SecurityLevel::Maximum ==> all == drawn(manager.first_layer@, first)
                + drawn(manager.second_layer@, second) + drawn(manager.third_layer@, third)
                && all.len() == 3
        }),
{
    assert(candidates(manager.layer(GuardLayer::First)).len() > 0);
    assert(candidates(manager.layer(GuardLayer::Second)).len() > 0);
    assert(candidates(manager.layer(GuardLayer::Third)).len() > 0);
    let all = manager.selection(first, second, third);
    let one = drawn(manager.first_layer@, first);
    let two = drawn(manager.second_layer@, second);
    assert(one + Seq::<GuardInfo>::empty() + Seq::<GuardInfo>::empty() =~= one);
    assert(one + two + Seq::<GuardInfo>::empty() =~= one + two);
}

/// At the standard level only the first layer has a say, at the enhanced the first
/// two, and at the maximum all three: guards can be selected exactly if one can be
/// drawn from each of these, and are selected by numbers in range of each.
pub proof fn law_layers_that_have_a_say(
    manager: GuardManager,
    first: u64,
    second: u64,
    third: u64,
    r: Result<Vec<GuardInfo>, RoutingError>,
)
    requires
        manager.selects(first, second, third, r),
    ensures
        ({
            let level = manager.config.security_level;
            &&& level == SecurityLevel::Standard ==> (manager.selectable() <==> drawable(
                manager.first_layer@,
            ))
            &&& level == SecurityLevel::Enhanced ==> (manager.selectable() <==> drawable(
                manager.first_layer@,
            ) && drawable(manager.second_layer@))
            &&& level == SecurityLevel::Maximum ==> (manager.selectable() <==> drawable(
                manager.first_layer@,
            ) && drawable(manager.second_layer@) && drawable(manager.third_layer@))
            &&& in_range(manager.first_layer@, first)
            &&& level != SecurityLevel::Standard ==> in_range(manager.second_layer@, second)
            &&& level == SecurityLevel::Maximum ==> in_range(manager.third_layer@, third)
            &&& r is Err ==> candidates(manager.first_layer@).len() == 0
            &&& r matches Ok(guards) ==> 1 <= guards@.len() <= manager.depth()
        }),
{
}

/// A layer of a manager with the usual intervals, once rotated, is due again when
/// more than ninety, thirty or seven days have passed, and not before; a layer that
/// never was rotated is due at once.
pub proof fn law_when_rotation_is_due(manager: GuardManager, layer: GuardLayer, now: Instant)
    requires
        manager.interval(layer).nanos == max_age(layer),
    ensures
        manager.last_rotation(layer) is None ==> manager.rotation_due(layer, now),
        manager.last_rotation(layer) matches Some(last) ==> (manager.rotation_due(layer, now)
            <==> now.nanos - last.nanos > secs(
            24 * 60 * 60 * match layer {
                GuardLayer::First => 90int,
                GuardLayer::Second => 30,
                GuardLayer::Third => 7,
            },
        )),
{
}

/// Whether a layer is another after a report on a guard: its entries get new
/// reputations and count the report, and the rest stays as it is.
pub open spec fn rated<F: Fn(Reading) -> Reading>(
    before: Seq<GuardEntry>,
    after: Seq<GuardEntry>,
    guard_id: Seq<char>,
    success: bool,
    next: F,
) -> bool {
    &&& after.len() == before.len()
    &&& forall|i: int|
        0 <= i < before.len() ==> rated_entry(
            before[i],
            #[trigger] after[i],
            guard_id,
            success,
            next,
        )
}

/// A report on a guard counts once in every entry of it, as a use where it was a
/// success and as a failure where it was not, and changes no other entry.
pub proof fn law_reports_on_guards_are_counted<F: Fn(Reading) -> Reading>(
    before: Seq<GuardEntry>,
    after: Seq<GuardEntry>,
    guard_id: Seq<char>,
    success: bool,
    next: F,
    i: int,
)
    requires
        rated(before, after, guard_id, success, next),
        GuardManager::countable(before, guard_id),
        0 <= i < before.len(),
    ensures
        after.len() == before.len(),
        after[i].info == before[i].info && after[i].added_at == before[i].added_at,
        before[i].info.identity@ != guard_id ==> after[i] == before[i],
        before[i].info.identity@ == guard_id ==> {
            &&& after[i].use_count == before[i].use_count + if success {
                1int
            } else {
                0
            }
            &&& after[i].failure_count == before[i].failure_count + if success {
                0int
            } else {
                1
            }
            &&& call_ensures(next, (before[i].reputation,), after[i].reputation)
        },
{
    assert(rated_entry(before[i], after[i], guard_id, success, next));
}

/// Whether an entry is another after a report on a guard.
pub open spec fn rated_entry<F: Fn(Reading) -> Reading>(
    before: GuardEntry,
    after: GuardEntry,
    guard_id: Seq<char>,
    success: bool,
    next: F,
) -> bool {
    if before.info.identity@ == guard_id {
        &&& call_ensures(next, (before.reputation,), after.reputation)
        &&& after == (if success {
            GuardEntry {
                reputation: after.reputation,
                use_count: (before.use_count + 1) as u64,
                ..before
            }
        } else {
            GuardEntry {
                reputation: after.reputation,
                failure_count: (before.failure_count + 1) as u64,
                ..before
            }
        })
    } else {
        after == before
    }
}

fn rate_layer<F: Fn(Reading) -> Reading>(
    layer: &mut Vec<GuardEntry>,
    guard_id: &str,
    success: bool,
    next: &F,
)
    requires
        GuardManager::countable(old(layer)@, guard_id@),
        forall|x: Reading| call_requires(*next, (x,)),
    ensures
        rated(old(layer)@, final(layer)@, guard_id@, success, *next),
{
    let mut i: usize = 0;
    while i < layer.len()
        invariant
            GuardManager::countable(old(layer)@, guard_id@),
            forall|x: Reading| call_requires(*next, (x,)),
            i <= layer@.len(),
            layer@.len() == old(layer)@.len(),
            forall|k: int|
                0 <= k < i ==> rated_entry(
                    old(layer)@[k],
                    #[trigger] layer@[k],
                    guard_id@,
                    success,
                    *next,
                ),
            forall|k: int| i <= k < layer@.len() ==> #[trigger] layer@[k] == old(layer)@[k],
        decreases layer@.len() - i,
    {
        assert(layer@[i as int] == old(layer)@[i as int]);
        if text::same(layer[i].info.identity.as_str(), guard_id) {
            let reputation = next(layer[i].reputation);
            let guard = &mut layer[i];
            guard.reputation = reputation;
            if success {
                guard.use_count = guard.use_count + 1;
            } else {
                guard.failure_count = guard.failure_count + 1;
            }
        }
        i = i + 1;
    }
}

/// Predecessor attack defense
/// Tracks circuit construction patterns to detect predecessor attacks
pub struct PredecessorDefense {
    /// Circuit construction history
    pub construction_history: VecDeque<CircuitConstruction>,
    /// Suspicious pattern threshold
    pub threshold: Ratio,
}

/// Circuit construction record
#[derive(Debug, Clone)]
pub struct CircuitConstruction {
    /// When the circuit was built
    pub timestamp: Instant,
    /// Its first relay
    pub first_hop: String,
    /// Its second relay
    pub second_hop: String,
    /// Its third relay
    pub third_hop: String,
}

/// How many circuits start at a relay.
pub open spec fn starts_at(history: Seq<CircuitConstruction>, hop: Seq<char>) -> nat
    decreases history.len(),
{
    if history.len() == 0 {
        0
    } else {
        starts_at(history.drop_last(), hop) + if history.last().first_hop@ == hop {
            1nat
        } else {
            0
        }
    }
}

/// The circuits that start at a relay are counted one by one, wherever they stand:
/// those of two histories add up, a circuit counts for its first relay and for no
/// other, and there are never more than circuits.
pub proof fn law_starts_are_counted(
    a: Seq<CircuitConstruction>,
    b: Seq<CircuitConstruction>,
    hop: Seq<char>,
)
    ensures
        starts_at(a + b, hop) == starts_at(a, hop) + starts_at(b, hop),
        starts_at(a, hop) <= a.len(),
        (forall|i: int| 0 <= i < a.len() ==> (#[trigger] a[i]).first_hop@ == hop) ==> starts_at(
            a,
            hop,
        ) == a.len(),
        (forall|i: int| 0 <= i < a.len() ==> (#[trigger] a[i]).first_hop@ != hop) ==> starts_at(
            a,
            hop,
        ) == 0,
    decreases a.len() + b.len(),
{
    if b.len() > 0 {
        law_starts_are_counted(a, b.drop_last(), hop);
        assert((a + b).drop_last() =~= a + b.drop_last());
    } else {
        assert(a + b =~= a);
        if a.len() > 0 {
            law_starts_are_counted(a.drop_last(), b, hop);
            assert(a.last() == a[a.len() - 1]);
            assert forall|i: int| 0 <= i < a.len() - 1 implies #[trigger] a.drop_last()[i]
                == a[i] by {}
        }
    }
}

/// How many circuits are remembered.
pub const MAX_CONSTRUCTIONS: usize = 1000;

impl PredecessorDefense {
    /// Whether circuits start at a relay too often.
    pub open spec fn suspicious(self, hop: Seq<char>) -> bool {
        starts_at(self.construction_history@, hop) > 0 && starts_at(self.construction_history@, hop)
            * self.threshold.den > self.threshold.num * self.construction_history@.len()
    }

    /// Create new predecessor defense
    pub fn new(threshold: Ratio) -> (r: PredecessorDefense)
        ensures
            r.threshold == threshold,
            r.construction_history@ == Seq::<CircuitConstruction>::empty(),
    {
        PredecessorDefense { construction_history: VecDeque::new(), threshold }
    }

    /// Record circuit construction, and keep only the last thousand
    pub fn record_construction(
        &mut self,
        first: String,
        second: String,
        third: String,
        now: Instant,
    )
        ensures
            final(self).threshold == old(self).threshold,
            ({
                let all = old(self).construction_history@.push(
                    CircuitConstruction {
                        timestamp: now,
                        first_hop: first,
                        second_hop: second,
                        third_hop: third,
                    },
                );
                final(self).construction_history@ == (if all.len() > MAX_CONSTRUCTIONS {
                    all.skip(all.len() - MAX_CONSTRUCTIONS)
                } else {
                    all
                })
            }),
            final(self).construction_history@.len() > 0,
            old(self).construction_history@.len() < 1000
                ==> final(self).construction_history@.len() == old(
                self,
            ).construction_history@.len() + 1,
            old(self).construction_history@.len() >= 1000
                ==> final(self).construction_history@.len() == 1000,
            final(self).construction_history@.last().first_hop == first,
            final(self).construction_history@.last().timestamp == now,
    {
        self.construction_history.push_back(
            CircuitConstruction {
                timestamp: now,
                first_hop: first,
                second_hop: second,
                third_hop: third,
            },
        );
        let ghost all = self.construction_history@;
        let ghost mut gone: int = 0;
        assert(all.skip(0) =~= all);
        while self.construction_history.len() > MAX_CONSTRUCTIONS
            invariant
                self.threshold == old(self).threshold,
                0 <= gone <= all.len(),
                gone > 0 ==> all.len() - gone >= MAX_CONSTRUCTIONS,
                self.construction_history@ == all.skip(gone),
            decreases self.construction_history@.len(),
        {
            self.construction_history.pop_front();
            proof {
                gone = gone + 1;
                assert(self.construction_history@ =~= all.skip(gone));
            }
        }
    }

    /// Check for predecessor attack patterns
    pub fn detect_attack(&self) -> (r: Option<PredecessorAlert>)
        ensures
            match r {
                Some(alert) => {
                    &&& self.suspicious(alert.suspicious_hop@)
                    &&& alert.frequency.num == starts_at(
                        self.construction_history@,
                        alert.suspicious_hop@,
                    )
                    &&& alert.frequency.den == self.construction_history@.len()
                    &&& alert.recommendation == AlertRecommendation::RotateGuard
                },
                None => forall|hop: Seq<char>| !#[trigger] self.suspicious(hop),
            },
    {
        let total: usize = self.construction_history.len();
        let ghost history = self.construction_history@;
        let mut i: usize = 0;
        while i < total
            invariant
                history == self.construction_history@,
                total == history.len(),
                i <= total,
                forall|k: int| 0 <= k < i ==> !self.suspicious((#[trigger] history[k]).first_hop@),
            decreases total - i,
        {
            let hop = self.construction_history[i].first_hop.as_str();
            let count: usize = self.count_starts(hop);
            let frequency = Ratio::new(count as u64, total as u64);
            proof {
                lemma_starting(history, i as int);
            }
            if frequency.exceeds(&self.threshold) {
                return Some(
                    PredecessorAlert {
                        suspicious_hop: hop.to_owned(),
                        frequency,
                        recommendation: AlertRecommendation::RotateGuard,
                    },
                );
            }
            i = i + 1;
        }
        proof {
            assert forall|hop: Seq<char>| !#[trigger] self.suspicious(hop) by {
                if starts_at(history, hop) > 0 {
                    lemma_starter(history, hop);
                    let k = choose|k: int|
                        0 <= k < history.len() && (#[trigger] history[k]).first_hop@ == hop;
                    assert(history[k].first_hop@ == hop);
                }
            }
        }
        None
    }

    fn count_starts(&self, hop: &str) -> (r: usize)
        ensures
            r == starts_at(self.construction_history@, hop@),
    {
        let ghost history = self.construction_history@;
        let mut count: usize = 0;
        let mut i: usize = 0;
        while i < self.construction_history.len()
            invariant
                history == self.construction_history@,
                i <= history.len(),
                count <= i,
                count == starts_at(history.take(i as int), hop@),
            decreases history.len() - i,
        {
            assert(history.take(i + 1).drop_last() =~= history.take(i as int));
            if text::same(self.construction_history[i].first_hop.as_str(), hop) {
                count = count + 1;
            }
            i = i + 1;
        }
        assert(history.take(i as int) =~= history);
        count
    }
}

proof fn lemma_starting(history: Seq<CircuitConstruction>, i: int)
    requires
        0 <= i < history.len(),
    ensures
        starts_at(history, history[i].first_hop@) > 0,
    decreases history.len(),
{
    if i < history.len() - 1 {
        lemma_starting(history.drop_last(), i);
    }
}

proof fn lemma_starter(history: Seq<CircuitConstruction>, hop: Seq<char>)
    requires
        starts_at(history, hop) > 0,
    ensures
        exists|k: int| 0 <= k < history.len() && (#[trigger] history[k]).first_hop@ == hop,
    decreases history.len(),
{
    if history.last().first_hop@ == hop {
        assert(history[history.len() - 1].first_hop@ == hop);
    } else {
        let shorter = history.drop_last();
        lemma_starter(shorter, hop);
        let k = choose|k: int| 0 <= k < shorter.len() && (#[trigger] shorter[k]).first_hop@ == hop;
        assert(history[k].first_hop@ == hop);
    }
}

/// Predecessor attack alert
#[derive(Debug, Clone)]
pub struct PredecessorAlert {
    /// The relay that too many circuits start at
    pub suspicious_hop: String,
    /// The share of circuits that start there
    pub frequency: Ratio,
    /// What to do
    pub recommendation: AlertRecommendation,
}

/// With a threshold of a share below one, a relay that every circuit starts at is
/// suspicious; one that no circuit starts at never is, nor one with just that share;
/// and what is suspicious stays so when one more circuit starts there.
pub proof fn law_popular_relays_are_suspicious(
    defense: PredecessorDefense,
    more: PredecessorDefense,
    circuit: CircuitConstruction,
    hop: Seq<char>,
)
    requires
        defense.threshold.num < defense.threshold.den,
        more.threshold == defense.threshold,
        more.construction_history@ == defense.construction_history@.push(circuit),
        circuit.first_hop@ == hop,
    ensures
        defense.construction_history@.len() > 0 && starts_at(defense.construction_history@, hop)
            == defense.construction_history@.len() ==> defense.suspicious(hop),
        starts_at(defense.construction_history@, hop) == 0 ==> !defense.suspicious(hop),
        starts_at(defense.construction_history@, hop) * defense.threshold.den
            == defense.threshold.num * defense.construction_history@.len() ==> !defense.suspicious(
            hop,
        ),
        defense.suspicious(hop) ==> more.suspicious(hop),
{
    let history = defense.construction_history@;
    let s = starts_at(history, hop) as int;
    let l = history.len() as int;
    let (n, d) = (defense.threshold.num as int, defense.threshold.den as int);
    if l > 0 && s == l {
        assert(s * d > n * l) by (nonlinear_arith)
            requires
                s == l,
                l > 0,
                n < d,
        ;
    }
    assert(history.push(circuit).drop_last() =~= history);
    if defense.suspicious(hop) {
        assert((s + 1) * d > n * (l + 1)) by (nonlinear_arith)
            requires
                s * d > n * l,
                n < d,
        ;
    }
}

/// What to do about a guard.
#[derive(Debug, Clone, Copy, PartialEq, Eq, Structural)]
pub enum AlertRecommendation {
    /// Use another guard.
    RotateGuard,
    /// Never use the guard again.
    BlockGuard,
    /// Look into it.
    Investigate,
}

/// Guard denial-of-service protection
/// Defends against attacks that force guard rotation
pub struct GuardDoSProtection {
    /// DoS detection threshold
    pub dos_threshold: u64,
    /// Recent connection attempts
    pub connection_attempts: NameMap<Vec<Instant>>,
    /// Blocked guards
    pub blocked_guards: StringHashSet,
}

/// The attempts of the last minute.
pub open spec fn lately(now: Instant) -> spec_fn(Instant) -> bool {
    |t: Instant| elapsed(now, t) < 60_000_000_000
}

/// An attempt is remembered for less than sixty seconds.
pub proof fn law_attempts_fade_after_a_minute(attempts: Seq<Instant>, now: Instant, at: Instant)
    ensures
        attempts.filter(lately(now)).contains(at) <==> attempts.contains(at) && now.nanos
            - at.nanos < secs(60),
{
    maps::lemma_filter_members(attempts, lately(now), at);
}

impl GuardDoSProtection {
    /// Whether the records are sound.
    pub open spec fn wf(self) -> bool {
        self.connection_attempts.wf()
    }

    /// The attempts of a guard that are remembered.
    pub open spec fn attempts_of(self, guard_id: Seq<char>) -> Seq<Instant> {
        if self.connection_attempts@.dom().contains(guard_id) {
            self.connection_attempts@[guard_id]@
        } else {
            Seq::empty()
        }
    }

    /// Create new DoS protection
    pub fn new(dos_threshold: u64) -> (r: GuardDoSProtection)
        ensures
            r.wf(),
            r.dos_threshold == dos_threshold,
            r.connection_attempts@ == Map::<Seq<char>, Vec<Instant>>::empty(),
            r.blocked_guards@ == Set::<Seq<char>>::empty(),
    {
        GuardDoSProtection {
            dos_threshold,
            connection_attempts: NameMap::new(),
            blocked_guards: StringHashSet::new(),
        }
    }

    /// Record connection attempt. It is allowed unless there were more than the
    /// threshold within the last minute; then the guard is blocked.
    pub fn record_attempt(&mut self, guard_id: &str, now: Instant) -> (r: bool)
        requires
            old(self).wf(),
        ensures
            final(self).wf(),
            final(self).dos_threshold == old(self).dos_threshold,
            final(self).connection_attempts@.dom() == old(self).connection_attempts@.dom().insert(
                guard_id@,
            ),
            final(self).connection_attempts@.remove(guard_id@) == old(
                self,
            ).connection_attempts@.remove(guard_id@),
            final(self).attempts_of(guard_id@) == old(self).attempts_of(guard_id@).push(now).filter(
                lately(now),
            ),
            r == (final(self).attempts_of(guard_id@).len() <= old(self).dos_threshold),
            old(self).attempts_of(guard_id@).len() < old(self).dos_threshold ==> r,
            old(self).dos_threshold == 0 ==> !r,
            final(self).blocked_guards@ == (if r {
                old(self).blocked_guards@
            } else {
                old(self).blocked_guards@.insert(guard_id@)
            }),
    {
        let mut entry = match self.connection_attempts.remove(guard_id) {
            Some(entry) => entry,
            None => Vec::new(),
        };
        entry.push(now);
        let ghost all = entry@;
        let recent = recent_attempts(&entry, now);
        let number: usize = recent.len();
        proof {
            all.lemma_filter_len(lately(now));
            maps::lemma_filter_members(all, lately(now), now);
            assert(all[all.len() - 1] == now);
            assert(recent@.contains(now));
        }
        self.connection_attempts.insert(guard_id, recent);
        proof {
            assert(self.connection_attempts@.remove(guard_id@) =~= old(
                self,
            ).connection_attempts@.remove(guard_id@));
            assert(self.connection_attempts@.dom() =~= old(
                self,
            ).connection_attempts@.dom().insert(guard_id@));
        }
        if number as u64 > self.dos_threshold {
            self.blocked_guards.insert(guard_id.to_owned());
            return false;
        }
        true
    }

    /// Check if guard is blocked
    pub fn is_blocked(&self, guard_id: &str) -> (r: bool)
        ensures
            r == self.blocked_guards@.contains(guard_id@),
    {
        self.blocked_guards.contains(guard_id)
    }
}

fn recent_attempts(attempts: &Vec<Instant>, now: Instant) -> (r: Vec<Instant>)
    ensures
        r@ == attempts@.filter(lately(now)),
{
    let mut r: Vec<Instant> = Vec::new();
    let mut i: usize = 0;
    proof {
        reveal(Seq::filter);
    }
    while i < attempts.len()
        invariant
            i <= attempts@.len(),
            r@ == attempts@.take(i as int).filter(lately(now)),
        decreases attempts@.len() - i,
    {
        proof {
            reveal(Seq::filter);
            assert(attempts@.take(i + 1).drop_last() =~= attempts@.take(i as int));
        }
        if now.duration_since(attempts[i]).nanos < 60_000_000_000 {
            r.push(attempts[i]);
        }
        i = i + 1;
    }
    assert(attempts@.take(i as int) =~= attempts@);
    r
}

} // verus!
