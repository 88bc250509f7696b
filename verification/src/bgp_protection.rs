//! BGP Protection Module
//!
//! Implements countermeasures against RAPTOR (Routing Attacks on Privacy in Tor)
//! including BGP hijacking and interception attacks.

use crate::address::IpAddr;
use crate::names::NameMap;
use crate::ratio::Ratio;
use crate::text;
use crate::text::decimal_text;
use crate::time::{elapsed, secs, Duration, Instant};
use crate::{RoutingConfig, RoutingError};
use std::collections::{HashMap, HashSet};
use vstd::prelude::*;
use vstd::string::*;

verus! {

/// BGP Guard for protecting against routing attacks
pub struct BgpGuard {
    /// Configuration
    pub config: RoutingConfig,
    /// RPKI validator
    pub rpki_validator: RpkiValidator,
    /// BGP monitor
    pub bgp_monitor: BgpMonitor,
    /// AS path analyzer
    pub as_analyzer: AsPathAnalyzer,
    /// Known malicious ASes
    pub malicious_ases: HashSet<u32>,
}

/// RPKI validator for route origin validation
pub struct RpkiValidator {
    /// ROA (Route Origin Authorization) cache
    pub roa_cache: NameMap<RoaEntry>,
    /// Last update time
    pub last_update: Instant,
}

/// ROA entry
#[derive(Debug, Clone)]
pub struct RoaEntry {
    /// The prefix, in text
    pub prefix: String,
    /// The AS that may announce it
    pub origin_as: u32,
    /// The longest prefix that may be announced
    pub max_length: u8,
    /// Until when the entry holds
    pub valid_until: Instant,
}

/// The contents of a [`RoaEntry`].
pub struct RoaView {
    /// The prefix, in text
    pub prefix: Seq<char>,
    /// The AS that may announce it
    pub origin_as: u32,
    /// The longest prefix that may be announced
    pub max_length: u8,
    /// Until when the entry holds
    pub valid_until: Instant,
}

impl View for RoaEntry {
    type V = RoaView;

    open spec fn view(&self) -> RoaView {
        RoaView {
            prefix: self.prefix@,
            origin_as: self.origin_as,
            max_length: self.max_length,
            valid_until: self.valid_until,
        }
    }
}

/// BGP monitor for real-time anomaly detection
#[derive(Debug, Clone)]
pub struct BgpMonitor {
    /// BGP update history
    pub update_history: Vec<BgpUpdate>,
    /// Detection heuristics
    pub heuristics: Vec<DetectionHeuristic>,
}

/// BGP update record
#[derive(Debug, Clone)]
pub struct BgpUpdate {
    /// When it came
    pub timestamp: Instant,
    /// The prefix that was announced
    pub prefix: String,
    /// The AS that announced it
    pub origin_as: u32,
    /// The path of ASes
    pub as_path: Vec<u32>,
}

/// Detection heuristic
#[derive(Debug, Clone, Copy, PartialEq, Eq, Structural)]
pub enum DetectionHeuristic {
    /// Frequency-based detection
    Frequency {
        /// The least share of announcements.
        threshold: Ratio,
    },
    /// Time-based detection
    Time {
        /// The least time between first and last announcement.
        threshold: Duration,
    },
    /// Origin validation
    OriginValidation,
    /// Path length anomaly
    PathLength {
        /// The longest path.
        max_length: usize,
    },
}

/// AS path analyzer
pub struct AsPathAnalyzer {
    /// Historical AS paths
    pub path_history: NameMap<Vec<Vec<u32>>>,
    /// AS relationship database
    pub as_relationships: HashMap<u32, Vec<u32>>,
}

/// A threat on a route.
#[derive(Debug, Clone)]
pub enum BgpThreat {
    /// The prefix does not stand up to RPKI validation.
    RpkiInvalid,
    /// The path leads through a malicious AS.
    MaliciousAs(u32),
    /// An AS announces `count` out of `total` updates, which is too few.
    LowFrequency {
        /// The AS.
        asn: u32,
        /// Its announcements.
        count: usize,
        /// All announcements.
        total: usize,
    },
    /// A prefix was announced for too short a time.
    ShortLived {
        /// The prefix.
        prefix: String,
        /// The time from its first to its last announcement.
        duration: Duration,
    },
    /// A path is too long.
    LongPath(Vec<u32>),
}

/// The contents of a [`BgpThreat`].
pub enum ThreatView {
    /// The prefix does not stand up to RPKI validation.
    RpkiInvalid,
    /// The path leads through a malicious AS.
    MaliciousAs(u32),
    /// An AS announces `count` out of `total` updates, which is too few.
    LowFrequency {
        /// The AS.
        asn: u32,
        /// Its announcements.
        count: int,
        /// All announcements.
        total: int,
    },
    /// A prefix was announced for too short a time.
    ShortLived {
        /// The prefix.
        prefix: Seq<char>,
        /// The time from its first to its last announcement.
        nanos: int,
    },
    /// A path is too long.
    LongPath(Seq<u32>),
}

impl View for BgpThreat {
    type V = ThreatView;

    open spec fn view(&self) -> ThreatView {
        match *self {
            BgpThreat::RpkiInvalid => ThreatView::RpkiInvalid,
            BgpThreat::MaliciousAs(asn) => ThreatView::MaliciousAs(asn),
            BgpThreat::LowFrequency { asn, count, total } => ThreatView::LowFrequency {
                asn,
                count: count as int,
                total: total as int,
            },
            BgpThreat::ShortLived { prefix, duration } => ThreatView::ShortLived {
                prefix: prefix@,
                nanos: duration.nanos as int,
            },
            BgpThreat::LongPath(path) => ThreatView::LongPath(path@),
        }
    }
}

/// Numbers with commas between them.
pub open spec fn listed_numbers(numbers: Seq<u32>) -> Seq<char>
    decreases numbers.len(),
{
    if numbers.len() == 0 {
        Seq::empty()
    } else if numbers.len() == 1 {
        decimal_text(numbers[0] as nat)
    } else {
        listed_numbers(numbers.drop_last()) + ", "@ + decimal_text(numbers.last() as nat)
    }
}

impl ThreatView {
    /// The threat in words, where `measure` is the text of the share or the time
    /// that it speaks of.
    pub open spec fn words(self, measure: Seq<char>) -> Seq<char> {
        match self {
            ThreatView::RpkiInvalid => "RPKI validation failed"@,
            ThreatView::MaliciousAs(asn) => "Path contains malicious AS: "@ + decimal_text(
                asn as nat,
            ),
            ThreatView::LowFrequency { asn, .. } => "Low frequency AS detected: "@ + decimal_text(
                asn as nat,
            ) + " (freq: "@ + measure + ")"@,
            ThreatView::ShortLived { prefix, .. } => "Short-lived prefix announcement: "@ + prefix
                + " (duration: "@ + measure + ")"@,
            ThreatView::LongPath(path) => "Suspicious AS path length: "@ + decimal_text(path.len())
                + " (path: ["@ + listed_numbers(path) + "])"@,
        }
    }
}

impl BgpThreat {
    /// The threat in words. The caller gives the text of the share or the time
    /// that the threat speaks of, if it speaks of one.
    pub fn describe(&self, measure: &str) -> (r: String)
        ensures
            r@ == self@.words(measure@),
    {
        match self {
            BgpThreat::RpkiInvalid => "RPKI validation failed".to_owned(),
            BgpThreat::MaliciousAs(asn) => text::joined(
                "Path contains malicious AS: ",
                text::decimal(*asn as u64).as_str(),
            ),
            BgpThreat::LowFrequency { asn, .. } => {
                let a = text::joined(
                    "Low frequency AS detected: ",
                    text::decimal(*asn as u64).as_str(),
                );
                let b = text::joined(a.as_str(), " (freq: ");
                let c = text::joined(b.as_str(), measure);
                text::joined(c.as_str(), ")")
            },
            BgpThreat::ShortLived { prefix, .. } => {
                let a = text::joined("Short-lived prefix announcement: ", prefix.as_str());
                let b = text::joined(a.as_str(), " (duration: ");
                let c = text::joined(b.as_str(), measure);
                text::joined(c.as_str(), ")")
            },
            BgpThreat::LongPath(path) => {
                let a = text::joined(
                    "Suspicious AS path length: ",
                    text::decimal(path.len() as u64).as_str(),
                );
                let b = text::joined(a.as_str(), " (path: [");
                let c = text::joined(b.as_str(), list_numbers(path).as_str());
                text::joined(c.as_str(), "])")
            },
        }
    }
}

fn list_numbers(numbers: &Vec<u32>) -> (r: String)
    ensures
        r@ == listed_numbers(numbers@),
{
    let mut r = "".to_owned();
    let mut i: usize = 0;
    proof {
        reveal_strlit("");
        assert(r@ =~= Seq::<char>::empty());
    }
    while i < numbers.len()
        invariant
            i <= numbers@.len(),
            r@ == listed_numbers(numbers@.take(i as int)),
        decreases numbers@.len() - i,
    {
        assert(numbers@.take(i + 1).drop_last() =~= numbers@.take(i as int));
        let number = text::decimal(numbers[i] as u64);
        if i == 0 {
            r = number;
        } else {
            let head = text::joined(r.as_str(), ", ");
            r = text::joined(head.as_str(), number.as_str());
        }
        i = i + 1;
    }
    assert(numbers@.take(i as int) =~= numbers@);
    r
}

/// The announcements of an AS.
pub open spec fn announcements(history: Seq<BgpUpdate>, asn: u32) -> nat
    decreases history.len(),
{
    if history.len() == 0 {
        0
    } else {
        announcements(history.drop_last(), asn) + if history.last().origin_as == asn {
            1nat
        } else {
            0
        }
    }
}

/// Whether a prefix is announced.
pub open spec fn announced(history: Seq<BgpUpdate>, prefix: Seq<char>) -> bool {
    exists|i: int| 0 <= i < history.len() && (#[trigger] history[i]).prefix@ == prefix
}

/// Whether an update is the first announcement of its prefix.
pub open spec fn first_of(history: Seq<BgpUpdate>, i: int) -> bool {
    0 <= i < history.len() && forall|k: int|
        0 <= k < i ==> (#[trigger] history[k]).prefix@ != history[i].prefix@
}

/// Whether an update is the last announcement of its prefix.
pub open spec fn last_of(history: Seq<BgpUpdate>, i: int) -> bool {
    0 <= i < history.len() && forall|k: int|
        i < k < history.len() ==> (#[trigger] history[k]).prefix@ != history[i].prefix@
}

/// Whether a prefix is announced, for `nanos` nanoseconds from its first to its
/// last announcement.
pub open spec fn announced_for(history: Seq<BgpUpdate>, prefix: Seq<char>, nanos: int) -> bool {
    exists|i: int, j: int|
        #![trigger first_of(history, i), last_of(history, j)]
        first_of(history, i) && last_of(history, j) && history[i].prefix@ == prefix
            && history[j].prefix@ == prefix && nanos == elapsed(
            history[j].timestamp,
            history[i].timestamp,
        )
}

/// Whether an AS announces, but too seldom.
pub open spec fn rare(history: Seq<BgpUpdate>, asn: u32, threshold: Ratio) -> bool {
    announcements(history, asn) > 0 && announcements(history, asn) * threshold.den < threshold.num
        * history.len()
}

/// The announcements of an AS are counted one by one, wherever they stand: those of
/// two histories add up, an update counts for the AS that announces it and for no
/// other, and there are never more than updates.
pub proof fn law_announcements_are_counted(a: Seq<BgpUpdate>, b: Seq<BgpUpdate>, asn: u32)
    ensures
        announcements(a + b, asn) == announcements(a, asn) + announcements(b, asn),
        announcements(a, asn) <= a.len(),
        (forall|i: int| 0 <= i < a.len() ==> (#[trigger] a[i]).origin_as == asn) ==> announcements(
            a,
            asn,
        ) == a.len(),
        (forall|i: int| 0 <= i < a.len() ==> (#[trigger] a[i]).origin_as != asn) ==> announcements(
            a,
            asn,
        ) == 0,
    decreases a.len() + b.len(),
{
    if b.len() > 0 {
        law_announcements_are_counted(a, b.drop_last(), asn);
        assert((a + b).drop_last() =~= a + b.drop_last());
    } else {
        assert(a + b =~= a);
        if a.len() > 0 {
            law_announcements_are_counted(a.drop_last(), b, asn);
            assert(a.last() == a[a.len() - 1]);
            assert forall|i: int| 0 <= i < a.len() - 1 implies #[trigger] a.drop_last()[i]
                == a[i] by {}
        }
    }
}

/// With a threshold of a share, an AS that makes every announcement is not rare and
/// one that makes none is not either; and an AS that announces once more does not
/// become rare by it.
pub proof fn law_frequent_announcers_are_not_rare(
    history: Seq<BgpUpdate>,
    update: BgpUpdate,
    threshold: Ratio,
)
    requires
        threshold.num <= threshold.den,
    ensures
        ({
            let asn = update.origin_as;
            &&& announcements(history, asn) == history.len() ==> !rare(history, asn, threshold)
            &&& announcements(history, asn) == 0 ==> !rare(history, asn, threshold)
            &&& announcements(history, asn) > 0 && !rare(history, asn, threshold) ==> !rare(
                history.push(update),
                asn,
                threshold,
            )
        }),
{
    let asn = update.origin_as;
    let a = announcements(history, asn) as int;
    let l = history.len() as int;
    let (n, d) = (threshold.num as int, threshold.den as int);
    assert(history.push(update).drop_last() =~= history);
    if a == l {
        assert(a * d >= n * l) by (nonlinear_arith)
            requires
                a == l,
                l >= 0,
                n <= d,
        ;
    }
    if a * d >= n * l {
        assert((a + 1) * d >= n * (l + 1)) by (nonlinear_arith)
            requires
                a * d >= n * l,
                n <= d,
        ;
    }
}

/// A prefix that is announced is announced for one time only: where the updates
/// came in order, for the longest that lies between two of its announcements.
pub proof fn law_time_of_an_announcement(
    history: Seq<BgpUpdate>,
    prefix: Seq<char>,
    nanos: int,
    other: int,
    a: int,
    b: int,
)
    requires
        announced_for(history, prefix, nanos),
        forall|i: int, j: int|
            0 <= i <= j < history.len() ==> (#[trigger] history[i]).timestamp.nanos <= (
            #[trigger] history[j]).timestamp.nanos,
        0 <= a < history.len(),
        0 <= b < history.len(),
        history[a].prefix@ == prefix,
        history[b].prefix@ == prefix,
    ensures
        announced_for(history, prefix, other) ==> other == nanos,
        history[b].timestamp.nanos - history[a].timestamp.nanos <= nanos,
        exists|i: int, j: int|
            #![trigger history[i], history[j]]
            0 <= i <= j < history.len() && history[i].prefix@ == prefix && history[j].prefix@
                == prefix && history[j].timestamp.nanos - history[i].timestamp.nanos == nanos,
{
    let (i, j) = choose|i: int, j: int|
        #![trigger first_of(history, i), last_of(history, j)]
        first_of(history, i) && last_of(history, j) && history[i].prefix@ == prefix
            && history[j].prefix@ == prefix && nanos == elapsed(
            history[j].timestamp,
            history[i].timestamp,
        );
    assert(i <= a && i <= b && a <= j && b <= j);
    assert(history[i].timestamp.nanos <= history[a].timestamp.nanos);
    assert(history[b].timestamp.nanos <= history[j].timestamp.nanos);
    assert(history[i].timestamp.nanos <= history[j].timestamp.nanos);
    if announced_for(history, prefix, other) {
        let (k, m) = choose|k: int, m: int|
            #![trigger first_of(history, k), last_of(history, m)]
            first_of(history, k) && last_of(history, m) && history[k].prefix@ == prefix
                && history[m].prefix@ == prefix && other == elapsed(
                history[m].timestamp,
                history[k].timestamp,
            );
        assert(k == i && m == j);
    }
}

impl BgpMonitor {
    /// Whether a threat is what a heuristic finds; where there is no threat,
    /// that it finds nothing. Where it finds several, any of them will do.
    pub open spec fn finds(self, heuristic: DetectionHeuristic, found: Option<ThreatView>) -> bool {
        let history = self.update_history@;
        match heuristic {
            DetectionHeuristic::Frequency { threshold } => match found {
                Some(threat) => {
                    &&& threat is LowFrequency
                    &&& rare(history, threat->LowFrequency_asn, threshold)
                    &&& threat->LowFrequency_count == announcements(
                        history,
                        threat->LowFrequency_asn,
                    )
                    &&& threat->LowFrequency_total == history.len()
                },
                None => forall|asn: u32| !#[trigger] rare(history, asn, threshold),
            },
            DetectionHeuristic::Time { threshold } => match found {
                Some(threat) => {
                    &&& threat is ShortLived
                    &&& announced_for(
                        history,
                        threat->ShortLived_prefix,
                        threat->ShortLived_nanos,
                    )
                    &&& threat->ShortLived_nanos < threshold.nanos
                },
                None => forall|prefix: Seq<char>, nanos: int| #[trigger]
                    announced_for(history, prefix, nanos) ==> nanos >= threshold.nanos,
            },
            DetectionHeuristic::OriginValidation => found is None,
            DetectionHeuristic::PathLength { max_length } => match found {
                Some(threat) => {
                    &&& threat is LongPath
                    &&& exists|i: int|
                        0 <= i < history.len() && (#[trigger] history[i]).as_path@
                            == threat->LongPath_0 && threat->LongPath_0.len() > max_length
                            && forall|k: int|
                            0 <= k < i ==> (#[trigger] history[k]).as_path@.len() <= max_length
                },
                None => forall|i: int|
                    0 <= i < history.len() ==> (#[trigger] history[i]).as_path@.len()
                        <= max_length,
            },
        }
    }

    /// Apply detection heuristic
    pub fn apply_heuristic(&self, heuristic: &DetectionHeuristic) -> (r: Option<BgpThreat>)
        ensures
            self.finds(*heuristic, view_of(r)),
    {
        match heuristic {
            DetectionHeuristic::Frequency { threshold } => self.check_frequency_anomaly(*threshold),
            DetectionHeuristic::Time { threshold } => self.check_time_anomaly(*threshold),
            DetectionHeuristic::OriginValidation => self.check_origin_validation(),
            DetectionHeuristic::PathLength { max_length } => self.check_path_length(*max_length),
        }
    }

    /// Check for frequency anomaly
    pub fn check_frequency_anomaly(&self, threshold: Ratio) -> (r: Option<BgpThreat>)
        ensures
            self.finds(DetectionHeuristic::Frequency { threshold }, view_of(r)),
    {
        let total: usize = self.update_history.len();
        let mut i: usize = 0;
        while i < total
            invariant
                total == self.update_history@.len(),
                i <= total,
                forall|k: int|
                    0 <= k < i ==> !rare(
                        self.update_history@,
                        (#[trigger] self.update_history@[k]).origin_as,
                        threshold,
                    ),
            decreases total - i,
        {
            let asn: u32 = self.update_history[i].origin_as;
            let count: usize = count_announcements(&self.update_history, asn);
            proof {
                lemma_announcing(self.update_history@, i as int);
            }
            if threshold.exceeds(&Ratio::new(count as u64, total as u64)) {
                return Some(BgpThreat::LowFrequency { asn, count, total });
            }
            i = i + 1;
        }
        proof {
            assert forall|asn: u32| !#[trigger] rare(self.update_history@, asn, threshold) by {
                if announcements(self.update_history@, asn) > 0 {
                    lemma_announcer(self.update_history@, asn);
                    let k = choose|k: int|
                        0 <= k < self.update_history@.len() && (
                        #[trigger] self.update_history@[k]).origin_as == asn;
                    assert(self.update_history@[k].origin_as == asn);
                }
            }
        }
        None
    }

    /// Check for time-based anomaly
    pub fn check_time_anomaly(&self, threshold: Duration) -> (r: Option<BgpThreat>)
        ensures
            self.finds(DetectionHeuristic::Time { threshold }, view_of(r)),
    {
        let history = &self.update_history;
        let mut i: usize = 0;
        while i < history.len()
            invariant
                history@ == self.update_history@,
                i <= history@.len(),
                forall|k: int, j: int|
                    #![trigger first_of(history@, k), last_of(history@, j)]
                    0 <= k < i && first_of(history@, k) && last_of(history@, j)
                        && history@[k].prefix@ == history@[j].prefix@ ==> elapsed(
                        history@[j].timestamp,
                        history@[k].timestamp,
                    ) >= threshold.nanos,
            decreases history@.len() - i,
        {
            if is_first(history, i) {
                let last: usize = last_place(history, i);
                let duration = history[last].timestamp.duration_since(history[i].timestamp);
                if duration.nanos < threshold.nanos {
                    let prefix = history[i].prefix.clone();
                    proof {
                        assert(first_of(history@, i as int) && last_of(history@, last as int));
                        assert(announced_for(history@, prefix@, duration.nanos as int));
                    }
                    return Some(BgpThreat::ShortLived { prefix, duration });
                }
                proof {
                    assert forall|j: int| #[trigger] last_of(history@, j) && history@[j].prefix@
                        == history@[i as int].prefix@ implies j == last by {
                        if j < last {
                            assert(history@[last as int].prefix@ != history@[j].prefix@);
                        } else if j > last {
                            assert(history@[j].prefix@ != history@[last as int].prefix@);
                        }
                    }
                }
            }
            i = i + 1;
        }
        None
    }

    /// Check origin validation: nothing is ever found
    pub fn check_origin_validation(&self) -> (r: Option<BgpThreat>)
        ensures
            r is None,
    {
        None
    }

    /// Check path length anomaly
    pub fn check_path_length(&self, max_length: usize) -> (r: Option<BgpThreat>)
        ensures
            self.finds(DetectionHeuristic::PathLength { max_length }, view_of(r)),
    {
        let mut i: usize = 0;
        while i < self.update_history.len()
            invariant
                i <= self.update_history@.len(),
                forall|k: int|
                    0 <= k < i ==> (#[trigger] self.update_history@[k]).as_path@.len()
                        <= max_length,
            decreases self.update_history@.len() - i,
        {
            if self.update_history[i].as_path.len() > max_length {
                let path = self.update_history[i].as_path.clone();
                assert(path@ =~= self.update_history@[i as int].as_path@);
                return Some(BgpThreat::LongPath(path));
            }
            i = i + 1;
        }
        None
    }
}

/// The contents of a threat, if there is one.
pub open spec fn view_of(threat: Option<BgpThreat>) -> Option<ThreatView> {
    match threat {
        Some(t) => Some(t@),
        None => None,
    }
}

/// A heuristic does not both find something and find nothing; and what it finds is
/// what it looks for: an AS that announces seldom, with its announcements and all; a
/// prefix that was announced for less than the time; a path that is longer than the
/// longest, the first of these.
pub proof fn law_what_heuristics_find(
    monitor: BgpMonitor,
    heuristic: DetectionHeuristic,
    threat: ThreatView,
)
    requires
        monitor.finds(heuristic, Some(threat)),
    ensures
        !monitor.finds(heuristic, None),
        heuristic is Frequency ==> (threat matches ThreatView::LowFrequency { asn, count, total }
            && total == monitor.update_history@.len() && 0 < count <= total && count
            == announcements(monitor.update_history@, asn)),
        heuristic matches DetectionHeuristic::Time { threshold } ==> (
        threat matches ThreatView::ShortLived { prefix, nanos } && nanos < threshold.nanos),
        heuristic matches DetectionHeuristic::PathLength { max_length } ==> (
        threat matches ThreatView::LongPath(path) && path.len() > max_length),
        !(heuristic is OriginValidation),
{
    let history = monitor.update_history@;
    match heuristic {
        DetectionHeuristic::Frequency { threshold } => {
            let asn = threat->LowFrequency_asn;
            assert(rare(history, asn, threshold));
            law_announcements_are_counted(history, Seq::empty(), asn);
        },
        DetectionHeuristic::Time { threshold } => {
            assert(announced_for(history, threat->ShortLived_prefix, threat->ShortLived_nanos));
        },
        _ => {},
    }
}

proof fn lemma_announcing(history: Seq<BgpUpdate>, i: int)
    requires
        0 <= i < history.len(),
    ensures
        announcements(history, history[i].origin_as) > 0,
    decreases history.len(),
{
    if i < history.len() - 1 {
        lemma_announcing(history.drop_last(), i);
    }
}

proof fn lemma_announcer(history: Seq<BgpUpdate>, asn: u32)
    requires
        announcements(history, asn) > 0,
    ensures
        exists|k: int| 0 <= k < history.len() && (#[trigger] history[k]).origin_as == asn,
    decreases history.len(),
{
    if history.last().origin_as == asn {
        assert(history[history.len() - 1].origin_as == asn);
    } else {
        let shorter = history.drop_last();
        lemma_announcer(shorter, asn);
        let k = choose|k: int| 0 <= k < shorter.len() && (#[trigger] shorter[k]).origin_as == asn;
        assert(history[k].origin_as == asn);
    }
}

fn count_announcements(history: &Vec<BgpUpdate>, asn: u32) -> (r: usize)
    ensures
        r == announcements(history@, asn),
{
    let mut count: usize = 0;
    let mut i: usize = 0;
    while i < history.len()
        invariant
            i <= history@.len(),
            count <= i,
            count == announcements(history@.take(i as int), asn),
        decreases history@.len() - i,
    {
        assert(history@.take(i + 1).drop_last() =~= history@.take(i as int));
        if history[i].origin_as == asn {
            count = count + 1;
        }
        i = i + 1;
    }
    assert(history@.take(i as int) =~= history@);
    count
}

fn is_first(history: &Vec<BgpUpdate>, i: usize) -> (r: bool)
    requires
        i < history@.len(),
    ensures
        r == first_of(history@, i as int),
{
    let mut k: usize = 0;
    while k < i
        invariant
            k <= i < history@.len(),
            forall|m: int|
                0 <= m < k ==> (#[trigger] history@[m]).prefix@ != history@[i as int].prefix@,
        decreases i - k,
    {
        if text::same(history[k].prefix.as_str(), history[i].prefix.as_str()) {
            assert(history@[k as int].prefix@ == history@[i as int].prefix@);
            return false;
        }
        k = k + 1;
    }
    true
}

fn last_place(history: &Vec<BgpUpdate>, i: usize) -> (r: usize)
    requires
        i < history@.len(),
    ensures
        last_of(history@, r as int),
        history@[r as int].prefix@ == history@[i as int].prefix@,
{
    let n: usize = history.len();
    let mut last: usize = i;
    let mut k: usize = i + 1;
    while k < n
        invariant
            n == history@.len(),
            i <= last < k <= history@.len(),
            history@[last as int].prefix@ == history@[i as int].prefix@,
            forall|m: int|
                last < m < k ==> (#[trigger] history@[m]).prefix@ != history@[last as int].prefix@,
        decreases history@.len() - k,
    {
        if text::same(history[k].prefix.as_str(), history[i].prefix.as_str()) {
            last = k;
        }
        k = k + 1;
    }
    last
}

/// A path without its first and last AS.
pub open spec fn middle(path: Seq<u32>) -> Seq<u32> {
    if path.len() > 2 {
        path.subrange(1, path.len() - 1)
    } else {
        Seq::empty()
    }
}

/// The ASes that two paths have in common between their ends.
pub open spec fn shared_ases(path1: Seq<u32>, path2: Seq<u32>) -> Set<u32> {
    middle(path1).to_set().intersect(middle(path2).to_set())
}

/// Two paths share the same ASes in whatever order they are taken.
pub proof fn law_diversity_is_symmetric(path1: Seq<u32>, path2: Seq<u32>)
    ensures
        shared_ases(path1, path2) == shared_ases(path2, path1),
{
    assert(shared_ases(path1, path2) =~= shared_ases(path2, path1));
}

/// Two paths share the ASes that stand on both of them, but for the first and the
/// last of each.
pub proof fn law_what_paths_share(path1: Seq<u32>, path2: Seq<u32>, asn: u32)
    ensures
        shared_ases(path1, path2).contains(asn) <==> (exists|i: int|
            0 < i < path1.len() - 1 && #[trigger] path1[i] == asn) && (exists|j: int|
            0 < j < path2.len() - 1 && #[trigger] path2[j] == asn),
{
    lemma_middle(path1, asn);
    lemma_middle(path2, asn);
}

/// How many ASes two paths share: no more than stand between the ends of either, and
/// two at least where two are different.
proof fn lemma_number_shared(path1: Seq<u32>, path2: Seq<u32>)
    ensures
        shared_ases(path1, path2).finite(),
        path1.len() <= 3 || path2.len() <= 3 ==> shared_ases(path1, path2).len() <= 1,
        forall|a: u32, b: u32|
            a != b && #[trigger] shared_ases(path1, path2).contains(a) && #[trigger] shared_ases(
                path1,
                path2,
            ).contains(b) ==> shared_ases(path1, path2).len() >= 2,
{
    let s = shared_ases(path1, path2);
    let (m1, m2) = (middle(path1), middle(path2));
    vstd::seq_lib::seq_to_set_is_finite(m1);
    vstd::seq_lib::seq_to_set_is_finite(m2);
    m1.lemma_cardinality_of_set();
    m2.lemma_cardinality_of_set();
    vstd::set_lib::lemma_len_subset(s, m1.to_set());
    vstd::set_lib::lemma_len_subset(s, m2.to_set());
    assert forall|a: u32, b: u32|
        a != b && #[trigger] s.contains(a) && #[trigger] s.contains(b) implies s.len() >= 2 by {
        vstd::set_lib::lemma_len_subset(set![a, b], s);
        assert(set![a, b].len() == 2);
    }
}

proof fn lemma_middle(path: Seq<u32>, asn: u32)
    ensures
        middle(path).contains(asn) <==> exists|i: int|
            0 < i < path.len() - 1 && #[trigger] path[i] == asn,
{
    let m = middle(path);
    if m.contains(asn) {
        let k = choose|k: int| 0 <= k < m.len() && m[k] == asn;
        assert(path[k + 1] == asn);
    }
    if exists|i: int| 0 < i < path.len() - 1 && #[trigger] path[i] == asn {
        let i = choose|i: int| 0 < i < path.len() - 1 && #[trigger] path[i] == asn;
        assert(m[i - 1] == asn);
    }
}

impl BgpGuard {
    /// Whether the records are sound.
    pub open spec fn wf(self) -> bool {
        self.rpki_validator.roa_cache.wf() && self.as_analyzer.path_history.wf()
    }

    /// Whether the guard is new: it has seen no update.
    pub open spec fn is_new(self, config: RoutingConfig, now: Instant) -> bool {
        &&& self.config == config
        &&& self.rpki_validator.roa_cache@ == Map::<Seq<char>, RoaEntry>::empty()
        &&& self.rpki_validator.last_update == now
        &&& self.bgp_monitor.update_history@ == Seq::<BgpUpdate>::empty()
        &&& self.bgp_monitor.heuristics@ == seq![
            DetectionHeuristic::Frequency { threshold: Ratio { num: 1, den: 100_000 } },
            DetectionHeuristic::Time { threshold: Duration { nanos: 360_000_000_000 } },
            DetectionHeuristic::OriginValidation,
            DetectionHeuristic::PathLength { max_length: 10 },
        ]
        &&& self.as_analyzer.path_history@ == Map::<Seq<char>, Vec<Vec<u32>>>::empty()
        &&& self.as_analyzer.as_relationships@ == Map::<u32, Vec<u32>>::empty()
        &&& self.malicious_ases@ == Set::<u32>::empty()
    }

    /// Create new BGP guard
    pub fn new(config: RoutingConfig, now: Instant) -> (r: BgpGuard)
        ensures
            r.wf(),
            r.is_new(config, now),
    {
        let mut heuristics: Vec<DetectionHeuristic> = Vec::new();
        heuristics.push(DetectionHeuristic::Frequency { threshold: Ratio::new(1, 100_000) });
        heuristics.push(DetectionHeuristic::Time { threshold: Duration::from_secs(360) });
        heuristics.push(DetectionHeuristic::OriginValidation);
        heuristics.push(DetectionHeuristic::PathLength { max_length: 10 });
        assert(heuristics@ =~= seq![
            DetectionHeuristic::Frequency { threshold: Ratio { num: 1, den: 100_000 } },
            DetectionHeuristic::Time { threshold: Duration { nanos: 360_000_000_000 } },
            DetectionHeuristic::OriginValidation,
            DetectionHeuristic::PathLength { max_length: 10 },
        ]);
        BgpGuard {
            config,
            rpki_validator: RpkiValidator { roa_cache: NameMap::new(), last_update: now },
            bgp_monitor: BgpMonitor { update_history: Vec::new(), heuristics },
            as_analyzer: AsPathAnalyzer {
                path_history: NameMap::new(),
                as_relationships: HashMap::new(),
            },
            malicious_ases: HashSet::new(),
        }
    }

    /// Whether an AS of a path is malicious.
    pub open spec fn passes_malicious(self, as_path: Seq<u32>) -> bool {
        exists|i: int|
            0 <= i < as_path.len() && self.malicious_ases@.contains(#[trigger] as_path[i])
    }

    /// Whether a threat is what stands on a route, where RPKI validation says
    /// `rpki_valid` and the route leads along `as_path`: first of all that
    /// validation fails, next the first malicious AS on the path, then what the
    /// first heuristic finds that finds anything.
    pub open spec fn judges(
        self,
        rpki_valid: bool,
        as_path: Seq<u32>,
        found: Option<ThreatView>,
    ) -> bool {
        if !rpki_valid {
            found == Some(ThreatView::RpkiInvalid)
        } else if self.passes_malicious(as_path) {
            exists|i: int|
                0 <= i < as_path.len() && self.malicious_ases@.contains(#[trigger] as_path[i])
                    && found == Some(ThreatView::MaliciousAs(as_path[i])) && forall|k: int|
                    0 <= k < i ==> !self.malicious_ases@.contains(#[trigger] as_path[k])
        } else {
            self.heuristics_find(found)
        }
    }

    /// Whether a threat is what the first heuristic finds that finds anything.
    pub open spec fn heuristics_find(self, found: Option<ThreatView>) -> bool {
        let heuristics = self.bgp_monitor.heuristics@;
        match found {
            Some(threat) => exists|i: int|
                0 <= i < heuristics.len() && self.bgp_monitor.finds(
                    #[trigger] heuristics[i],
                    found,
                ) && forall|k: int|
                    0 <= k < i ==> self.bgp_monitor.finds(
                        #[trigger] heuristics[k],
                        None::<ThreatView>,
                    ),
            None => forall|k: int|
                0 <= k < heuristics.len() ==> self.bgp_monitor.finds(
                    #[trigger] heuristics[k],
                    None::<ThreatView>,
                ),
        }
    }

    /// Check route for BGP threats. `prefix` is the destination in text.
    pub fn check_route(&self, destination: &IpAddr, prefix: &str, now: Instant) -> (r: Result<
        Option<BgpThreat>,
        RoutingError,
    >)
        requires
            self.wf(),
        ensures
            r matches Ok(found) && if self.config.bgp_protection {
                self.judges(true, Seq::empty(), view_of(found))
            } else {
                found is None
            },
    {
        if !self.config.bgp_protection {
            return Ok(None);
        }
        let rpki_valid = self.rpki_validator.validate_prefix(prefix, now);
        match self.lookup_as_path(destination) {
            Ok(as_path) => Ok(self.judge_route(rpki_valid, &as_path)),
            Err(e) => Err(e),
        }
    }

    /// The threat on a route, if there is one, given what RPKI validation says
    /// and the path of the route.
    pub fn judge_route(&self, rpki_valid: bool, as_path: &Vec<u32>) -> (r: Option<BgpThreat>)
        ensures
            self.judges(rpki_valid, as_path@, view_of(r)),
    {
        if !rpki_valid {
            return Some(BgpThreat::RpkiInvalid);
        }
        let mut i: usize = 0;
        while i < as_path.len()
            invariant
                rpki_valid,
                i <= as_path@.len(),
                forall|k: int|
                    0 <= k < i ==> !self.malicious_ases@.contains(#[trigger] as_path@[k]),
            decreases as_path@.len() - i,
        {
            if self.malicious_ases.contains(&as_path[i]) {
                assert(self.malicious_ases@.contains(as_path@[i as int]));
                return Some(BgpThreat::MaliciousAs(as_path[i]));
            }
            i = i + 1;
        }
        let heuristics = &self.bgp_monitor.heuristics;
        let mut h: usize = 0;
        while h < heuristics.len()
            invariant
                heuristics@ == self.bgp_monitor.heuristics@,
                h <= heuristics@.len(),
                forall|k: int|
                    0 <= k < h ==> self.bgp_monitor.finds(
                        #[trigger] heuristics@[k],
                        None::<ThreatView>,
                    ),
                !self.passes_malicious(as_path@),
                rpki_valid,
            decreases heuristics@.len() - h,
        {
            match self.bgp_monitor.apply_heuristic(&heuristics[h]) {
                Some(threat) => {
                    assert(self.bgp_monitor.finds(heuristics@[h as int], Some(threat@)));
                    return Some(threat);
                },
                None => {},
            }
            h = h + 1;
        }
        None
    }

    /// Validate AS path diversity: at most one AS between the ends in common
    pub fn validate_path_diversity(&self, path1: &[u32], path2: &[u32]) -> (r: Result<
        bool,
        RoutingError,
    >)
        ensures
            r matches Ok(diverse) && diverse == (shared_ases(path1@, path2@).len() <= 1),
            path1@.len() <= 3 || path2@.len() <= 3 ==> r == Ok::<bool, RoutingError>(true),
            forall|a: u32, b: u32|
                a != b && #[trigger] shared_ases(path1@, path2@).contains(a)
                    && #[trigger] shared_ases(path1@, path2@).contains(b) ==> r == Ok::<
                    bool,
                    RoutingError,
                >(false),
    {
        let mut common: Vec<u32> = Vec::new();
        let ghost m1 = middle(path1@);
        let ghost m2 = middle(path2@);
        if path1.len() > 2 && path2.len() > 2 {
            let mut i: usize = 1;
            while i < path1.len() - 1
                invariant
                    path1@.len() > 2,
                    path2@.len() > 2,
                    m1 == middle(path1@),
                    m2 == middle(path2@),
                    1 <= i <= path1@.len() - 1,
                    common@.no_duplicates(),
                    forall|x: u32| #[trigger]
                        common@.contains(x) <==> m1.take(i - 1).contains(x) && m2.contains(x),
                decreases path1@.len() - i,
            {
                let x: u32 = path1[i];
                let ghost before = common@;
                proof {
                    assert(m1[i - 1] == x);
                    lemma_take_next(m1, i - 1);
                }
                if within_middle(path2, x) && !holds_number(&common, x) {
                    common.push(x);
                    proof {
                        lemma_push(before, x);
                    }
                }
                i = i + 1;
            }
            assert(m1.take(i - 1) =~= m1);
        }
        proof {
            assert(common@.to_set() =~= shared_ases(path1@, path2@));
            common@.unique_seq_to_set();
        }
        proof {
            lemma_number_shared(path1@, path2@);
        }
        Ok(common.len() <= 1)
    }

    /// Lookup AS path for IP: none is known
    pub fn lookup_as_path(&self, _ip: &IpAddr) -> (r: Result<Vec<u32>, RoutingError>)
        ensures
            r matches Ok(path) && path@ == Seq::<u32>::empty(),
    {
        Ok(Vec::new())
    }

    /// Report BGP anomaly: the origin of a hijack becomes malicious
    pub fn report_anomaly(&mut self, update: BgpUpdate, alert_type: BgpAlertType)
        requires
            old(self).wf(),
        ensures
            final(self).wf(),
            final(self).config == old(self).config,
            final(self).rpki_validator == old(self).rpki_validator,
            final(self).as_analyzer == old(self).as_analyzer,
            final(self).bgp_monitor.heuristics == old(self).bgp_monitor.heuristics,
            final(self).bgp_monitor.update_history@ == old(self).bgp_monitor.update_history@.push(
                update,
            ),
            final(self).malicious_ases@ == (if alert_type == BgpAlertType::Hijack {
                old(self).malicious_ases@.insert(update.origin_as)
            } else {
                old(self).malicious_ases@
            }),
    {
        let origin_as: u32 = update.origin_as;
        self.bgp_monitor.update_history.push(update);
        match alert_type {
            BgpAlertType::Hijack => {
                self.malicious_ases.insert(origin_as);
            },
            BgpAlertType::Interception => {},
            BgpAlertType::Anomaly => {},
        }
    }
}

proof fn lemma_nobody_is_rare(monitor: BgpMonitor, threshold: Ratio, asn: u32)
    requires
        monitor.finds(DetectionHeuristic::Frequency { threshold }, None::<ThreatView>),
    ensures
        !rare(monitor.update_history@, asn, threshold),
{
    let h = DetectionHeuristic::Frequency { threshold };
    assert(h is Frequency);
    assert(h->Frequency_threshold == threshold);
    let t = h->Frequency_threshold;
    assert(!rare(monitor.update_history@, asn, t));
}

/// With the usual heuristics there is no threat on a route exactly if validation
/// says that it is valid, no AS of its path is malicious, and of the updates so far
/// no AS made fewer than one in a hundred thousand, no prefix was announced for less
/// than six minutes, and no path had more than ten ASes.
#[verifier::rlimit(40)]
pub proof fn law_when_a_route_is_safe(guard: BgpGuard, rpki_valid: bool, as_path: Seq<u32>)
    requires
        guard.bgp_monitor.heuristics@ == seq![
            DetectionHeuristic::Frequency { threshold: Ratio { num: 1, den: 100_000 } },
            DetectionHeuristic::Time { threshold: Duration { nanos: 360_000_000_000 } },
            DetectionHeuristic::OriginValidation,
            DetectionHeuristic::PathLength { max_length: 10 },
        ],
    ensures
        ({
            let history = guard.bgp_monitor.update_history@;
            guard.judges(rpki_valid, as_path, None) <==> {
                &&& rpki_valid
                &&& forall|i: int|
                    0 <= i < as_path.len() ==> !guard.malicious_ases@.contains(
                        #[trigger] as_path[i],
                    )
                &&& forall|asn: u32|
                    announcements(history, asn) == 0 || 100_000 * #[trigger] announcements(
                        history,
                        asn,
                    ) >= history.len()
                &&& forall|prefix: Seq<char>, nanos: int| #[trigger]
                    announced_for(history, prefix, nanos) ==> nanos >= secs(360)
                &&& forall|i: int|
                    0 <= i < history.len() ==> (#[trigger] history[i]).as_path@.len() <= 10
            }
        }),
{
    let history = guard.bgp_monitor.update_history@;
    let heuristics = guard.bgp_monitor.heuristics@;
    let none = None::<ThreatView>;
    let usual = Ratio { num: 1, den: 100_000 };
    assert(heuristics.len() == 4);
    assert(heuristics[0] == DetectionHeuristic::Frequency { threshold: usual });
    assert forall|asn: u32| #[trigger]
        rare(history, asn, usual) == !(announcements(history, asn) == 0 || 100_000 * announcements(
            history,
            asn,
        ) >= history.len()) by {
        let a = announcements(history, asn) as int;
        let l = history.len() as int;
        assert(a * (usual.den as int) == 100_000 * a) by (nonlinear_arith)
            requires
                usual.den == 100_000,
        ;
        assert((usual.num as int) * l == l) by (nonlinear_arith)
            requires
                usual.num == 1,
        ;
    }
    if guard.heuristics_find(none) {
        assert(guard.bgp_monitor.finds(heuristics[0], none));
        assert(guard.bgp_monitor.finds(heuristics[1], none));
        assert(guard.bgp_monitor.finds(heuristics[3], none));
        assert forall|asn: u32|
            announcements(history, asn) == 0 || 100_000 * #[trigger] announcements(history, asn)
                >= history.len() by {
            lemma_nobody_is_rare(guard.bgp_monitor, usual, asn);
        }
    }
    if forall|asn: u32|
        announcements(history, asn) == 0 || 100_000 * #[trigger] announcements(history, asn)
            >= history.len() {
        assert forall|asn: u32| !#[trigger] rare(history, asn, usual) by {
            assert(announcements(history, asn) == 0 || 100_000 * announcements(history, asn)
                >= history.len());
        }
    }
}

/// An AS that a hijack was reported of is a threat on every path that leads through
/// it, whatever else there is.
pub proof fn law_hijackers_are_a_threat(
    guard: BgpGuard,
    rpki_valid: bool,
    as_path: Seq<u32>,
    found: Option<ThreatView>,
    i: int,
)
    requires
        0 <= i < as_path.len(),
        guard.malicious_ases@.contains(as_path[i]),
        guard.judges(rpki_valid, as_path, found),
    ensures
        found is Some,
        found == Some(ThreatView::RpkiInvalid) <==> !rpki_valid,
{
    assert(guard.passes_malicious(as_path));
}

/// Of the malicious ASes on a valid path the first is named.
pub proof fn law_the_first_malicious_as_is_named(
    guard: BgpGuard,
    as_path: Seq<u32>,
    found: Option<ThreatView>,
    i: int,
)
    requires
        0 <= i < as_path.len(),
        guard.malicious_ases@.contains(as_path[i]),
        forall|k: int|
            0 <= k < i ==> !guard.malicious_ases@.contains(#[trigger] as_path[k]),
        guard.judges(true, as_path, found),
    ensures
        found == Some(ThreatView::MaliciousAs(as_path[i])),
{
    assert(guard.passes_malicious(as_path));
    let j = choose|j: int|
        0 <= j < as_path.len() && guard.malicious_ases@.contains(#[trigger] as_path[j]) && found
            == Some(ThreatView::MaliciousAs(as_path[j])) && forall|k: int|
            0 <= k < j ==> !guard.malicious_ases@.contains(#[trigger] as_path[k]);
    assert(guard.malicious_ases@.contains(as_path[j]));
    assert(i == j);
}

proof fn lemma_take_next(s: Seq<u32>, i: int)
    requires
        0 <= i < s.len(),
    ensures
        forall|x: u32| #[trigger] s.take(i + 1).contains(x) <==> s.take(i).contains(x) || x == s[i],
{
    assert(s.take(i + 1) =~= s.take(i).push(s[i]));
    lemma_push(s.take(i), s[i]);
}

proof fn lemma_push(s: Seq<u32>, x: u32)
    ensures
        forall|y: u32| #[trigger] s.push(x).contains(y) <==> s.contains(y) || y == x,
        s.no_duplicates() && !s.contains(x) ==> s.push(x).no_duplicates(),
{
    let more = s.push(x);
    assert forall|y: u32| #[trigger] more.contains(y) <==> s.contains(y) || y == x by {
        if s.contains(y) {
            let k = choose|k: int| 0 <= k < s.len() && s[k] == y;
            assert(more[k] == y);
        }
        assert(more[s.len() as int] == x);
    }
}

fn within_middle(path: &[u32], x: u32) -> (r: bool)
    requires
        path@.len() > 2,
    ensures
        r == middle(path@).contains(x),
{
    let ghost m = middle(path@);
    let mut i: usize = 1;
    while i < path.len() - 1
        invariant
            path@.len() > 2,
            m == middle(path@),
            1 <= i <= path@.len() - 1,
            forall|k: int| 0 <= k < i - 1 ==> #[trigger] m[k] != x,
        decreases path@.len() - i,
    {
        assert(m[i - 1] == path@[i as int]);
        if path[i] == x {
            return true;
        }
        i = i + 1;
    }
    false
}

fn holds_number(numbers: &Vec<u32>, x: u32) -> (r: bool)
    ensures
        r == numbers@.contains(x),
{
    let mut i: usize = 0;
    while i < numbers.len()
        invariant
            i <= numbers@.len(),
            forall|k: int| 0 <= k < i ==> numbers@[k] != x,
        decreases numbers@.len() - i,
    {
        if numbers[i] == x {
            return true;
        }
        i = i + 1;
    }
    false
}

/// A cache after entries have been added one after the other.
pub open spec fn with_entries(
    cache: Map<Seq<char>, RoaEntry>,
    entries: Seq<RoaEntry>,
) -> Map<Seq<char>, RoaEntry>
    decreases entries.len(),
{
    if entries.len() == 0 {
        cache
    } else {
        with_entries(cache, entries.drop_last()).insert(entries.last().prefix@, entries.last())
    }
}

impl RpkiValidator {
    /// What validation of a route says.
    pub open spec fn state(
        self,
        prefix: Seq<char>,
        origin_as: u32,
        prefix_len: u8,
        now: Instant,
    ) -> RpkiValidationState {
        if !self.roa_cache@.dom().contains(prefix) || self.roa_cache@[prefix].valid_until.nanos
            < now.nanos {
            RpkiValidationState::NotFound
        } else if self.roa_cache@[prefix].origin_as == origin_as && prefix_len
            <= self.roa_cache@[prefix].max_length {
            RpkiValidationState::Valid
        } else {
            RpkiValidationState::Invalid
        }
    }

    /// Validate prefix against ROAs. A prefix without an entry that holds passes
    /// too, so as not to block legitimate traffic.
    pub fn validate_prefix(&self, prefix: &str, now: Instant) -> (r: bool)
        requires
            self.roa_cache.wf(),
        ensures
            r,
    {
        match self.roa_cache.get(prefix) {
            Some(roa) => {
                if roa.valid_until.nanos > now.nanos {
                    return true;
                }
            },
            None => {},
        }
        true
    }

    /// Update ROA cache from RPKI validator
    pub fn update_roa_cache(&mut self, entries: Vec<RoaEntry>, now: Instant)
        requires
            old(self).roa_cache.wf(),
        ensures
            final(self).roa_cache.wf(),
            final(self).roa_cache@ == with_entries(old(self).roa_cache@, entries@),
            final(self).last_update == now,
    {
        let ghost all = entries@;
        for entry in it: entries
            invariant
                it.seq() == all,
                self.roa_cache.wf(),
                self.roa_cache@ == with_entries(old(self).roa_cache@, all.take(it.index())),
        {
            let prefix = entry.prefix.clone();
            assert(all.take(it.index() + 1).drop_last() =~= all.take(it.index()));
            assert(all.take(it.index() + 1).last() == entry);
            self.roa_cache.insert(prefix.as_str(), entry);
        }
        assert(all.take(all.len() as int) =~= all);
        self.last_update = now;
    }

    /// Fetch ROAs from RPKI validator: two example entries, for a day
    pub fn fetch_roas(&mut self, _validator_url: &str, now: Instant) -> (r: Result<(), String>)
        requires
            old(self).roa_cache.wf(),
            now.nanos + 86_400_000_000_000 <= u64::MAX,
        ensures
            final(self).roa_cache.wf(),
            r is Ok,
            final(self).last_update == now,
            final(self).roa_cache@.dom() == old(self).roa_cache@.dom().insert(
                "1.0.0.0/24"@,
            ).insert("8.8.8.0/24"@),
            final(self).roa_cache@["1.0.0.0/24"@]@ == (RoaView {
                prefix: "1.0.0.0/24"@,
                origin_as: 13335,
                max_length: 24,
                valid_until: Instant { nanos: (now.nanos + 86_400_000_000_000) as u64 },
            }),
            final(self).roa_cache@["8.8.8.0/24"@]@ == (RoaView {
                prefix: "8.8.8.0/24"@,
                origin_as: 15169,
                max_length: 24,
                valid_until: Instant { nanos: (now.nanos + 86_400_000_000_000) as u64 },
            }),
            forall|prefix: Seq<char>|
                #![trigger final(self).roa_cache@[prefix]]
                old(self).roa_cache@.dom().contains(prefix) && prefix != "1.0.0.0/24"@ && prefix
                    != "8.8.8.0/24"@ ==> final(self).roa_cache@[prefix] == old(
                    self,
                ).roa_cache@[prefix],
    {
        let until = now.after(Duration::from_secs(86400));
        let mut entries: Vec<RoaEntry> = Vec::new();
        entries.push(
            RoaEntry {
                prefix: "1.0.0.0/24".to_owned(),
                origin_as: 13335,
                max_length: 24,
                valid_until: until,
            },
        );
        entries.push(
            RoaEntry {
                prefix: "8.8.8.0/24".to_owned(),
                origin_as: 15169,
                max_length: 24,
                valid_until: until,
            },
        );
        let ghost all = entries@;
        proof {
            reveal_strlit("1.0.0.0/24");
            reveal_strlit("8.8.8.0/24");
            assert("1.0.0.0/24"@[0] != "8.8.8.0/24"@[0]);
            reveal_with_fuel(with_entries, 3);
            assert(all.drop_last().drop_last() =~= Seq::<RoaEntry>::empty());
        }
        self.update_roa_cache(entries, now);
        Ok(())
    }

    /// Validate route origin (ROV - Route Origin Validation)
    pub fn validate_route_origin(
        &self,
        prefix: &str,
        origin_as: u32,
        prefix_len: u8,
        now: Instant,
    ) -> (r: RpkiValidationState)
        requires
            self.roa_cache.wf(),
        ensures
            r == self.state(prefix@, origin_as, prefix_len, now),
    {
        match self.roa_cache.get(prefix) {
            Some(roa) => {
                if roa.valid_until.nanos < now.nanos {
                    return RpkiValidationState::NotFound;
                }
                if roa.origin_as == origin_as && prefix_len <= roa.max_length {
                    RpkiValidationState::Valid
                } else {
                    RpkiValidationState::Invalid
                }
            },
            None => RpkiValidationState::NotFound,
        }
    }
}

/// A route that is valid for one AS is valid for no other.
pub proof fn law_one_valid_origin(
    validator: RpkiValidator,
    prefix: Seq<char>,
    first: u32,
    second: u32,
    prefix_len: u8,
    now: Instant,
)
    requires
        first != second,
        validator.state(prefix, first, prefix_len, now) == RpkiValidationState::Valid,
    ensures
        validator.state(prefix, second, prefix_len, now) == RpkiValidationState::Invalid,
{
}

/// While an entry holds, the origin that it names is valid at every length up to
/// the entry's greatest, that one too, and invalid at every length above it; every
/// other origin is invalid at every length.
pub proof fn law_valid_up_to_the_greatest_length(
    validator: RpkiValidator,
    prefix: Seq<char>,
    origin_as: u32,
    prefix_len: u8,
    now: Instant,
)
    requires
        validator.roa_cache@.dom().contains(prefix),
        now.nanos <= validator.roa_cache@[prefix].valid_until.nanos,
    ensures
        ({
            let entry = validator.roa_cache@[prefix];
            let state = validator.state(prefix, origin_as, prefix_len, now);
            &&& origin_as == entry.origin_as && 0 <= prefix_len <= entry.max_length ==> state
                == RpkiValidationState::Valid
            &&& origin_as == entry.origin_as && prefix_len > entry.max_length ==> state
                == RpkiValidationState::Invalid
            &&& origin_as != entry.origin_as ==> state == RpkiValidationState::Invalid
        }),
{
}

/// What is valid at one length is valid at every shorter one, and what is invalid
/// at one length is invalid at every longer one.
pub proof fn law_shorter_stays_valid(
    validator: RpkiValidator,
    prefix: Seq<char>,
    origin_as: u32,
    shorter: u8,
    longer: u8,
    now: Instant,
)
    requires
        shorter <= longer,
    ensures
        validator.state(prefix, origin_as, longer, now) == RpkiValidationState::Valid
            ==> validator.state(prefix, origin_as, shorter, now) == RpkiValidationState::Valid,
        validator.state(prefix, origin_as, shorter, now) == RpkiValidationState::Invalid
            ==> validator.state(prefix, origin_as, longer, now) == RpkiValidationState::Invalid,
{
}

/// Nothing is found exactly if no entry for the prefix holds any more, whatever
/// the origin and the length; and what is no longer found is not found later.
pub proof fn law_expired_entries_are_not_found(
    validator: RpkiValidator,
    prefix: Seq<char>,
    origin_as: u32,
    prefix_len: u8,
    now: Instant,
    later: Instant,
)
    requires
        now.nanos <= later.nanos,
    ensures
        validator.state(prefix, origin_as, prefix_len, now) == RpkiValidationState::NotFound
            <==> !(validator.roa_cache@.dom().contains(prefix) && now.nanos
            <= validator.roa_cache@[prefix].valid_until.nanos),
        validator.state(prefix, origin_as, prefix_len, now) == RpkiValidationState::NotFound
            ==> validator.state(prefix, origin_as, prefix_len, later)
            == RpkiValidationState::NotFound,
{
}

/// Of the entries added for a prefix the last one counts, and a prefix without a
/// new entry keeps what it had.
pub proof fn law_the_last_entry_counts(
    cache: Map<Seq<char>, RoaEntry>,
    entries: Seq<RoaEntry>,
    prefix: Seq<char>,
)
    ensures
        forall|i: int|
            #![trigger entries[i]]
            0 <= i < entries.len() && entries[i].prefix@ == prefix && (forall|j: int|
                i < j < entries.len() ==> (#[trigger] entries[j]).prefix@ != prefix)
                ==> with_entries(cache, entries).dom().contains(prefix) && with_entries(
                cache,
                entries,
            )[prefix] == entries[i],
        (forall|i: int| 0 <= i < entries.len() ==> (#[trigger] entries[i]).prefix@ != prefix) ==> (
        with_entries(cache, entries).dom().contains(prefix) <==> cache.dom().contains(prefix))
            && with_entries(cache, entries)[prefix] == cache[prefix],
    decreases entries.len(),
{
    if entries.len() > 0 {
        let less = entries.drop_last();
        law_the_last_entry_counts(cache, less, prefix);
        assert forall|i: int|
            #![trigger entries[i]]
            0 <= i < entries.len() && entries[i].prefix@ == prefix && (forall|j: int|
                i < j < entries.len() ==> (#[trigger] entries[j]).prefix@ != prefix) implies (
        with_entries(cache, entries).dom().contains(prefix) && with_entries(
            cache,
            entries,
        )[prefix] == entries[i]) by {
            if i < less.len() {
                assert(less[i] == entries[i]);
                assert forall|j: int| i < j < less.len() implies (
                #[trigger] less[j]).prefix@ != prefix by {
                    assert(less[j] == entries[j]);
                }
                assert(entries[entries.len() - 1].prefix@ != prefix);
            }
        }
        if forall|i: int| 0 <= i < entries.len() ==> (#[trigger] entries[i]).prefix@ != prefix {
            assert forall|i: int| 0 <= i < less.len() implies (
            #[trigger] less[i]).prefix@ != prefix by {
                assert(less[i] == entries[i]);
            }
            assert(entries[entries.len() - 1].prefix@ != prefix);
        }
    }
}

/// BGP alert types
#[derive(Debug, Clone, Copy, PartialEq, Eq, Structural)]
pub enum BgpAlertType {
    /// A prefix was hijacked.
    Hijack,
    /// Traffic was intercepted.
    Interception,
    /// Something else is odd.
    Anomaly,
}

/// RPKI validation state
#[derive(Debug, Clone, Copy, PartialEq, Eq, Structural)]
pub enum RpkiValidationState {
    /// Route is valid according to RPKI
    Valid,
    /// Route is invalid (wrong origin AS or prefix length)
    Invalid,
    /// No ROA found for this prefix
    NotFound,
}

/// Counter-RAPTOR path selection
pub struct CounterRaptor {
    /// Client location (AS)
    pub client_as: u32,
    /// Avoid these ASes
    pub avoid_ases: HashSet<u32>,
}

/// Guard candidate
#[derive(Debug)]
pub struct GuardCandidate {
    /// Identity of the guard
    pub identity: String,
    /// Network address
    pub address: String,
    /// Bandwidth
    pub bandwidth: u64,
    /// The AS that it lies in
    pub asn: u32,
}

impl Clone for GuardCandidate {
    fn clone(&self) -> (r: GuardCandidate)
        ensures
            r == *self,
    {
        GuardCandidate {
            identity: self.identity.clone(),
            address: self.address.clone(),
            bandwidth: self.bandwidth,
            asn: self.asn,
        }
    }
}

impl CounterRaptor {
    /// Whether a guard may be selected: its AS is neither avoided nor the
    /// client's own.
    pub open spec fn eligible(self, candidate: GuardCandidate) -> bool {
        !self.avoid_ases@.contains(candidate.asn) && candidate.asn != self.client_as
    }

    /// Whether the candidate at `i` is the one to select: eligible, with more
    /// bandwidth than every eligible one behind it and no less than every other.
    pub open spec fn best(self, candidates: Seq<GuardCandidate>, i: int) -> bool {
        &&& 0 <= i < candidates.len()
        &&& self.eligible(candidates[i])
        &&& forall|k: int|
            0 <= k < candidates.len() && self.eligible(#[trigger] candidates[k])
                ==> candidates[k].bandwidth <= candidates[i].bandwidth && (k > i
                ==> candidates[k].bandwidth < candidates[i].bandwidth)
    }

    /// Create new Counter-RAPTOR selector
    pub fn new(client_as: u32) -> (r: CounterRaptor)
        ensures
            r.client_as == client_as,
            r.avoid_ases@ == Set::<u32>::empty(),
    {
        CounterRaptor { client_as, avoid_ases: HashSet::new() }
    }

    /// Select guard with AS awareness
    pub fn select_as_aware_guard(&self, candidates: &[GuardCandidate]) -> (r: Option<
        GuardCandidate,
    >)
        ensures
            match r {
                Some(guard) => exists|i: int| #[trigger]
                    self.best(candidates@, i) && guard == candidates@[i],
                None => forall|k: int|
                    0 <= k < candidates@.len() ==> !self.eligible(#[trigger] candidates@[k]),
            },
    {
        let mut chosen: Option<usize> = None;
        let mut i: usize = 0;
        while i < candidates.len()
            invariant
                i <= candidates@.len(),
                match chosen {
                    Some(c) => c < i && self.best(candidates@.take(i as int), c as int),
                    None => forall|k: int|
                        0 <= k < i ==> !self.eligible(#[trigger] candidates@[k]),
                },
            decreases candidates@.len() - i,
        {
            let ghost head = candidates@.take(i as int);
            let ghost more = candidates@.take(i + 1);
            assert(forall|k: int| 0 <= k < i ==> #[trigger] more[k] == head[k]);
            assert(forall|k: int| 0 <= k < i ==> #[trigger] more[k] == candidates@[k]);
            assert(more[i as int] == candidates@[i as int]);
            if !self.avoid_ases.contains(&candidates[i].asn) && candidates[i].asn
                != self.client_as {
                match chosen {
                    Some(c) => {
                        if candidates[i].bandwidth >= candidates[c].bandwidth {
                            chosen = Some(i);
                        }
                    },
                    None => {
                        chosen = Some(i);
                    },
                }
            }
            i = i + 1;
        }
        assert(candidates@.take(i as int) =~= candidates@);
        match chosen {
            Some(c) => Some(candidates[c].clone()),
            None => None,
        }
    }

    /// Update avoid list based on BGP monitoring
    pub fn update_avoid_list(&mut self, ases: Vec<u32>)
        ensures
            final(self).client_as == old(self).client_as,
            final(self).avoid_ases@ == old(self).avoid_ases@.union(ases@.to_set()),
    {
        let mut i: usize = 0;
        assert(old(self).avoid_ases@.union(ases@.take(0).to_set()) =~= old(self).avoid_ases@);
        while i < ases.len()
            invariant
                i <= ases@.len(),
                self.client_as == old(self).client_as,
                self.avoid_ases@ == old(self).avoid_ases@.union(ases@.take(i as int).to_set()),
            decreases ases@.len() - i,
        {
            let ghost before = self.avoid_ases@;
            self.avoid_ases.insert(ases[i]);
            proof {
                lemma_take_next(ases@, i as int);
                assert(self.avoid_ases@ =~= old(self).avoid_ases@.union(
                    ases@.take(i + 1).to_set(),
                ));
            }
            i = i + 1;
        }
        assert(ases@.take(i as int) =~= ases@);
    }
}

/// Whatever else is avoided, a guard that was not eligible stays so.
pub proof fn law_avoided_stays_avoided(
    before: CounterRaptor,
    after: CounterRaptor,
    candidate: GuardCandidate,
)
    requires
        after.client_as == before.client_as,
        before.avoid_ases@.subset_of(after.avoid_ases@),
        !before.eligible(candidate),
    ensures
        !after.eligible(candidate),
{
}

/// One candidate at most is the one to select, it lies neither in the client's own
/// AS nor in one that is avoided, and there is one unless every candidate does.
pub proof fn law_one_best_guard(raptor: CounterRaptor, candidates: Seq<GuardCandidate>)
    ensures
        forall|i: int, j: int| #[trigger]
            raptor.best(candidates, i) && #[trigger] raptor.best(candidates, j) ==> i == j,
        forall|i: int| #[trigger]
            raptor.best(candidates, i) ==> candidates[i].asn != raptor.client_as
                && !raptor.avoid_ases@.contains(candidates[i].asn),
        (exists|i: int| #[trigger] raptor.best(candidates, i)) <==> exists|k: int|
            0 <= k < candidates.len() && (#[trigger] candidates[k]).asn != raptor.client_as
                && !raptor.avoid_ases@.contains(candidates[k].asn),
{
    if exists|k: int|
        0 <= k < candidates.len() && (#[trigger] candidates[k]).asn != raptor.client_as
            && !raptor.avoid_ases@.contains(candidates[k].asn) {
        let k = choose|k: int|
            0 <= k < candidates.len() && (#[trigger] candidates[k]).asn != raptor.client_as
                && !raptor.avoid_ases@.contains(candidates[k].asn);
        assert(raptor.eligible(candidates[k]));
        let i = lemma_some_best(raptor, candidates);
    }
}

proof fn lemma_some_best(raptor: CounterRaptor, candidates: Seq<GuardCandidate>) -> (i: int)
    requires
        exists|k: int| 0 <= k < candidates.len() && raptor.eligible(#[trigger] candidates[k]),
    ensures
        raptor.best(candidates, i),
    decreases candidates.len(),
{
    let k = choose|k: int| 0 <= k < candidates.len() && raptor.eligible(#[trigger] candidates[k]);
    let n = candidates.len() - 1;
    let less = candidates.drop_last();
    assert forall|k: int| 0 <= k < n implies #[trigger] less[k] == candidates[k] by {}
    if exists|k: int| 0 <= k < less.len() && raptor.eligible(#[trigger] less[k]) {
        let i = lemma_some_best(raptor, less);
        assert forall|k: int| 0 <= k < n implies #[trigger] candidates[k] == less[k] by {}
        if raptor.eligible(candidates[n]) && candidates[n].bandwidth >= candidates[i].bandwidth {
            assert(raptor.best(candidates, n));
            n
        } else {
            assert(raptor.best(candidates, i));
            i
        }
    } else {
        if k < n {
            assert(raptor.eligible(less[k]));
        }
        assert forall|k: int| 0 <= k < n implies !raptor.eligible(#[trigger] candidates[k]) by {
            assert(!raptor.eligible(less[k]));
        }
        assert(raptor.best(candidates, n));
        n
    }
}

/// ARTEMIS-style real-time detection
pub struct ArtemisDetector {
    /// Detection threshold
    pub threshold: Ratio,
    /// Historical state
    pub baseline: NameMap<BaselineEntry>,
}

/// What is expected of a prefix.
#[derive(Debug, Clone)]
pub struct BaselineEntry {
    /// The AS that announces it
    pub expected_origin: u32,
    /// The path
    pub expected_path: Vec<u32>,
    /// How certain that is
    pub confidence: Ratio,
}

/// Hijack detection result
#[derive(Debug, Clone)]
pub struct HijackDetection {
    /// The prefix
    pub prefix: String,
    /// The AS that was expected to announce it
    pub expected_origin: u32,
    /// The AS that announced it
    pub detected_origin: u32,
    /// How certain that is
    pub confidence: Ratio,
}

impl ArtemisDetector {
    /// Create new ARTEMIS detector
    pub fn new(threshold: Ratio) -> (r: ArtemisDetector)
        ensures
            r.threshold == threshold,
            r.baseline.wf(),
            r.baseline@ == Map::<Seq<char>, BaselineEntry>::empty(),
    {
        ArtemisDetector { threshold, baseline: NameMap::new() }
    }

    /// Detect hijack in real-time
    pub fn detect_hijack(&self, update: &BgpUpdate) -> (r: Option<HijackDetection>)
        requires
            self.baseline.wf(),
        ensures
            if self.baseline@.dom().contains(update.prefix@)
                && self.baseline@[update.prefix@].expected_origin != update.origin_as {
                &&& r matches Some(d) && d.prefix@ == update.prefix@ && d.expected_origin
                    == self.baseline@[update.prefix@].expected_origin && d.detected_origin
                    == update.origin_as && d.confidence == self.baseline@[update.prefix@].confidence
            } else {
                r is None
            },
    {
        match self.baseline.get(update.prefix.as_str()) {
            Some(entry) => {
                if update.origin_as != entry.expected_origin {
                    Some(
                        HijackDetection {
                            prefix: update.prefix.clone(),
                            expected_origin: entry.expected_origin,
                            detected_origin: update.origin_as,
                            confidence: entry.confidence,
                        },
                    )
                } else {
                    None
                }
            },
            None => None,
        }
    }
}

} // verus!
