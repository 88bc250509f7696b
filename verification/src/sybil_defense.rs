//! Sybil Defense Module
//!
//! Implements countermeasures against Sybil attacks including relay validation,
//! reputation systems, and behavioral analysis.

use crate::address::IpAddr;
use crate::names::{copied, texts, NameMap};
use crate::ratio::Ratio;
use crate::reading::{Reading, ONE_HALF};
use crate::reading;
use crate::text;
use crate::text::decimal_text;
use crate::time::{Duration, Instant};
use crate::{RoutingConfig, RoutingError, RoutingFailure};
use vstd::arithmetic::power2::pow2;
use vstd::hash_set::StringHashSet;
use vstd::prelude::*;
use vstd::string::*;
use vstd::utf8::encode_utf8;

verus! {

/// Sybil shield for detecting and preventing Sybil attacks
pub struct SybilShield {
    /// Configuration
    pub config: RoutingConfig,
    /// Relay reputation database
    pub reputation_db: ReputationDB,
    /// Sybil detection engine
    pub detection_engine: SybilDetector,
    /// Economic stake verifier
    pub stake_verifier: StakeVerifier,
    /// Geographic diversity checker
    pub diversity_checker: DiversityChecker,
    /// Blocked relays
    pub blocked_relays: StringHashSet,
}

/// Relay reputation database
pub struct ReputationDB {
    /// Relay entries
    pub entries: NameMap<ReputationEntry>,
    /// Minimum reputation threshold
    pub min_reputation: Reading,
}

/// Reputation entry
#[derive(Debug, Clone)]
pub struct ReputationEntry {
    /// Identity of the relay
    pub identity: String,
    /// Current reputation score, between zero and one
    pub score: Reading,
    /// Successful operations
    pub successes: u64,
    /// Failed operations
    pub failures: u64,
    /// First seen
    pub first_seen: Instant,
    /// Last update
    pub last_update: Instant,
    /// Flags
    pub flags: Vec<String>,
}

/// The contents of a [`ReputationEntry`].
pub struct ReputationView {
    /// Identity of the relay
    pub identity: Seq<char>,
    /// Current reputation score
    pub score: Reading,
    /// Successful operations
    pub successes: u64,
    /// Failed operations
    pub failures: u64,
    /// First seen
    pub first_seen: Instant,
    /// Last update
    pub last_update: Instant,
    /// Flags
    pub flags: Seq<Seq<char>>,
}

impl View for ReputationEntry {
    type V = ReputationView;

    open spec fn view(&self) -> ReputationView {
        ReputationView {
            identity: self.identity@,
            score: self.score,
            successes: self.successes,
            failures: self.failures,
            first_seen: self.first_seen,
            last_update: self.last_update,
            flags: texts(self.flags@),
        }
    }
}

/// What is known of a relay at first: a neutral score.
pub open spec fn newcomer(identity: Seq<char>, now: Instant) -> ReputationView {
    ReputationView {
        identity,
        score: Reading { bits: ONE_HALF },
        successes: 0,
        failures: 0,
        first_seen: now,
        last_update: now,
        flags: Seq::empty(),
    }
}

/// What is known of a relay after a report, where its score comes to `score`.
pub open spec fn reported(
    entry: ReputationView,
    behavior: RelayBehavior,
    score: Reading,
    now: Instant,
) -> ReputationView {
    let entry = ReputationView { score, last_update: now, ..entry };
    match behavior {
        RelayBehavior::Success => ReputationView { successes: (entry.successes + 1) as u64, ..entry
        },
        RelayBehavior::Failure => ReputationView { failures: (entry.failures + 1) as u64, ..entry },
        RelayBehavior::Suspicious => ReputationView {
            flags: entry.flags.push("suspicious"@),
            ..entry
        },
    }
}

/// Sybil detection engine
#[derive(Debug, Clone)]
pub struct SybilDetector {
    /// Detection heuristics
    pub heuristics: Vec<SybilHeuristic>,
    /// Detected Sybil groups
    pub sybil_groups: Vec<SybilGroup>,
}

/// Sybil detection heuristic
#[derive(Debug, Clone)]
pub enum SybilHeuristic {
    /// Same IP subnet
    SameSubnet {
        /// Length of the common prefix.
        prefix_len: u8,
    },
    /// Similar nickname patterns
    NicknamePattern {
        /// The pattern.
        pattern: String,
    },
    /// Coordinated behavior
    CoordinatedBehavior {
        /// The time within which relays act together.
        window: Duration,
    },
    /// Bandwidth inflation
    BandwidthInflation {
        /// The share of claimed over measured bandwidth.
        threshold: Ratio,
    },
    /// Fingerprint similarity
    FingerprintSimilarity,
}

/// Detected Sybil group
#[derive(Debug, Clone)]
pub struct SybilGroup {
    /// Group identifier
    pub group_id: String,
    /// Member relays
    pub members: Vec<String>,
    /// Detection confidence
    pub confidence: Ratio,
    /// Detection timestamp
    pub detected_at: Instant,
}

/// The contents of a [`SybilGroup`].
pub struct GroupView {
    /// Group identifier
    pub group_id: Seq<char>,
    /// Member relays
    pub members: Seq<Seq<char>>,
    /// Detection confidence
    pub confidence: Ratio,
    /// Detection timestamp
    pub detected_at: Instant,
}

impl View for SybilGroup {
    type V = GroupView;

    open spec fn view(&self) -> GroupView {
        GroupView {
            group_id: self.group_id@,
            members: texts(self.members@),
            confidence: self.confidence,
            detected_at: self.detected_at,
        }
    }
}

/// The contents of groups, in order.
pub open spec fn group_views(groups: Seq<SybilGroup>) -> Seq<GroupView> {
    groups.map_values(|g: SybilGroup| g@)
}

/// Economic stake verifier
pub struct StakeVerifier {
    /// Stake requirements by relay type
    pub stake_requirements: StakeRequirements,
    /// Verified stakes
    pub verified_stakes: NameMap<StakeProof>,
}

/// The stake that each type of relay must have.
#[derive(Debug, Clone, Copy, PartialEq, Eq, Structural)]
pub struct StakeRequirements {
    /// For guards.
    pub guard: u64,
    /// For middle relays.
    pub middle: u64,
    /// For exits.
    pub exit: u64,
}

impl StakeRequirements {
    /// The stake that a relay of this type must have.
    pub open spec fn of(self, relay_type: RelayType) -> u64 {
        match relay_type {
            RelayType::Guard => self.guard,
            RelayType::Middle => self.middle,
            RelayType::Exit => self.exit,
        }
    }

    /// The stake that a relay of this type must have.
    pub fn required(&self, relay_type: RelayType) -> (r: u64)
        ensures
            r == self.of(relay_type),
    {
        match relay_type {
            RelayType::Guard => self.guard,
            RelayType::Middle => self.middle,
            RelayType::Exit => self.exit,
        }
    }
}

/// The types of relays.
#[derive(Debug, Clone, Copy, PartialEq, Eq, Hash, Structural)]
pub enum RelayType {
    /// An entry guard.
    Guard,
    /// A middle relay.
    Middle,
    /// An exit.
    Exit,
}

/// Stake proof
#[derive(Debug, Clone)]
pub struct StakeProof {
    /// Identity of the relay
    pub identity: String,
    /// The stake
    pub amount: u64,
    /// The proof of it
    pub proof_bytes: Vec<u8>,
    /// When it was verified
    pub verified_at: Instant,
}

/// Geographic diversity checker
pub struct DiversityChecker {
    /// Required AS diversity
    pub min_as_diversity: usize,
    /// Required country diversity
    pub min_country_diversity: usize,
    /// What is known of addresses
    pub as_cache: Vec<(IpAddr, AsInfo)>,
}

/// What is known of an autonomous system.
#[derive(Debug, Clone)]
pub struct AsInfo {
    /// Its number.
    pub asn: u32,
    /// Its country.
    pub country: String,
    /// Its organization.
    pub organization: String,
}

/// Relay information
#[derive(Debug, Clone)]
pub struct RelayInfo {
    /// Identity of the relay
    pub identity: String,
    /// Network address
    pub address: IpAddr,
    /// Bandwidth in bytes per second
    pub bandwidth: u64,
    /// Type of the relay
    pub relay_type: RelayType,
    /// Stake of its operator
    pub stake_amount: u64,
    /// Nickname
    pub nickname: String,
    /// Fingerprint
    pub fingerprint: String,
}

/// Relay behavior report
#[derive(Debug, Clone, Copy, PartialEq, Eq, Structural)]
pub enum RelayBehavior {
    /// It did what it was asked.
    Success,
    /// It failed.
    Failure,
    /// It behaved suspiciously.
    Suspicious,
}

impl SybilShield {
    /// Whether the records are sound.
    pub open spec fn wf(self) -> bool {
        self.reputation_db.entries.wf() && self.stake_verifier.verified_stakes.wf()
    }

    /// Whether the shield is new: it knows no relay.
    pub open spec fn is_new(self, config: RoutingConfig) -> bool {
        &&& self.config == config
        &&& self.reputation_db.entries@ == Map::<Seq<char>, ReputationEntry>::empty()
        &&& self.reputation_db.min_reputation == (Reading { bits: ONE_HALF })
        &&& self.detection_engine.heuristics@ == seq![
            SybilHeuristic::SameSubnet { prefix_len: 24 },
            SybilHeuristic::CoordinatedBehavior {
                window: Duration { nanos: 3_600_000_000_000 },
            },
            SybilHeuristic::BandwidthInflation { threshold: Ratio { num: 2, den: 1 } },
        ]
        &&& self.detection_engine.sybil_groups@ == Seq::<SybilGroup>::empty()
        &&& self.stake_verifier.stake_requirements == (StakeRequirements {
            guard: 1000,
            middle: 500,
            exit: 2000,
        })
        &&& self.stake_verifier.verified_stakes@ == Map::<Seq<char>, StakeProof>::empty()
        &&& self.diversity_checker.min_as_diversity == 3
        &&& self.diversity_checker.min_country_diversity == 2
        &&& self.diversity_checker.as_cache@ == Seq::<(IpAddr, AsInfo)>::empty()
        &&& self.blocked_relays@ == Set::<Seq<char>>::empty()
    }

    /// Create new Sybil shield
    pub fn new(config: RoutingConfig) -> (r: SybilShield)
        ensures
            r.wf(),
            r.is_new(config),
    {
        let mut heuristics: Vec<SybilHeuristic> = Vec::new();
        heuristics.push(SybilHeuristic::SameSubnet { prefix_len: 24 });
        heuristics.push(
            SybilHeuristic::CoordinatedBehavior { window: Duration::from_secs(3600) },
        );
        heuristics.push(SybilHeuristic::BandwidthInflation { threshold: Ratio::new(2, 1) });
        assert(heuristics@ =~= seq![
            SybilHeuristic::SameSubnet { prefix_len: 24 },
            SybilHeuristic::CoordinatedBehavior { window: Duration { nanos: 3_600_000_000_000 } },
            SybilHeuristic::BandwidthInflation { threshold: Ratio { num: 2, den: 1 } },
        ]);
        SybilShield {
            config,
            reputation_db: ReputationDB {
                entries: NameMap::new(),
                min_reputation: Reading { bits: ONE_HALF },
            },
            detection_engine: SybilDetector { heuristics, sybil_groups: Vec::new() },
            stake_verifier: StakeVerifier {
                stake_requirements: StakeRequirements { guard: 1000, middle: 500, exit: 2000 },
                verified_stakes: NameMap::new(),
            },
            diversity_checker: DiversityChecker {
                min_as_diversity: 3,
                min_country_diversity: 2,
                as_cache: Vec::new(),
            },
            blocked_relays: StringHashSet::new(),
        }
    }

    /// Whether a relay belongs to a group with a confidence above `mark`.
    pub open spec fn grouped(self, identity: Seq<char>, mark: Ratio) -> bool {
        exists|i: int|
            0 <= i < self.detection_engine.sybil_groups@.len() && in_group(
                #[trigger] self.detection_engine.sybil_groups@[i],
                identity,
                mark,
            )
    }

    /// Whether a relay passes: it is not blocked, its score is not below the
    /// minimum, and it belongs to no group with a confidence above four fifths.
    pub open spec fn passes(self, identity: Seq<char>) -> bool {
        &&& !self.blocked_relays@.contains(identity)
        &&& !(self.reputation_db.entries@.dom().contains(identity)
            && self.reputation_db.entries@[identity].score.below(
            self.reputation_db.min_reputation.bits,
        ))
        &&& !self.grouped(identity, Ratio { num: 8, den: 10 })
    }

    /// Blocks the members of groups with a confidence above nine tenths
    pub fn block_detected(&mut self)
        requires
            old(self).wf(),
        ensures
            final(self).wf(),
            final(self).config == old(self).config,
            final(self).reputation_db == old(self).reputation_db,
            final(self).detection_engine == old(self).detection_engine,
            final(self).stake_verifier == old(self).stake_verifier,
            final(self).diversity_checker == old(self).diversity_checker,
            forall|name: Seq<char>| #[trigger]
                final(self).blocked_relays@.contains(name) <==> old(self).blocked_relays@.contains(
                    name,
                ) || old(self).grouped(name, Ratio { num: 9, den: 10 }),
    {
        let mark = Ratio::new(9, 10);
        let mut i: usize = 0;
        while i < self.detection_engine.sybil_groups.len()
            invariant
                self.wf(),
                mark == (Ratio { num: 9, den: 10 }),
                i <= self.detection_engine.sybil_groups@.len(),
                self.config == old(self).config,
                self.reputation_db == old(self).reputation_db,
                self.detection_engine == old(self).detection_engine,
                self.stake_verifier == old(self).stake_verifier,
                self.diversity_checker == old(self).diversity_checker,
                forall|name: Seq<char>| #[trigger]
                    self.blocked_relays@.contains(name) <==> old(self).blocked_relays@.contains(
                        name,
                    ) || exists|k: int|
                        0 <= k < i && in_group(
                            #[trigger] self.detection_engine.sybil_groups@[k],
                            name,
                            mark,
                        ),
            decreases self.detection_engine.sybil_groups@.len() - i,
        {
            let ghost before = self.blocked_relays@;
            let ghost group = self.detection_engine.sybil_groups@[i as int];
            if self.detection_engine.sybil_groups[i].confidence.exceeds(&mark) {
                let mut j: usize = 0;
                while j < self.detection_engine.sybil_groups[i].members.len()
                    invariant
                        self.wf(),
                        i < self.detection_engine.sybil_groups@.len(),
                        group == self.detection_engine.sybil_groups@[i as int],
                        j <= group.members@.len(),
                        self.config == old(self).config,
                        self.reputation_db == old(self).reputation_db,
                        self.detection_engine == old(self).detection_engine,
                        self.stake_verifier == old(self).stake_verifier,
                        self.diversity_checker == old(self).diversity_checker,
                        forall|name: Seq<char>| #[trigger]
                            self.blocked_relays@.contains(name) <==> before.contains(name)
                                || exists|k: int|
                                0 <= k < j && (#[trigger] group.members@[k])@ == name,
                    decreases group.members@.len() - j,
                {
                    let ghost so_far = self.blocked_relays@;
                    let ghost name = group.members@[j as int]@;
                    self.blocked_relays.insert(
                        self.detection_engine.sybil_groups[i].members[j].clone(),
                    );
                    proof {
                        assert(group.members@[j as int]@ == name);
                        assert forall|n: Seq<char>| #[trigger]
                            self.blocked_relays@.contains(n) implies before.contains(n) || exists|
                            k: int,
                        |
                            0 <= k < j + 1 && (#[trigger] group.members@[k])@ == n by {
                            if so_far.contains(n) && !before.contains(n) {
                                let k = choose|k: int|
                                    0 <= k < j && (#[trigger] group.members@[k])@ == n;
                            }
                        }
                    }
                    j = j + 1;
                }
            }
            proof {
                assert forall|name: Seq<char>| #[trigger]
                    self.blocked_relays@.contains(name) <==> before.contains(name) || in_group(
                        group,
                        name,
                        mark,
                    ) by {}
            }
            i = i + 1;
        }
    }

    /// Verify relay against Sybil attacks
    pub fn verify_relay(&self, identity: &str) -> (r: Result<bool, RoutingError>)
        requires
            self.wf(),
        ensures
            r matches Ok(passed) && passed == self.passes(identity@),
    {
        if self.blocked_relays.contains(identity) {
            return Ok(false);
        }
        match self.reputation_db.entries.get(identity) {
            Some(entry) => {
                if entry.score.falls_below(self.reputation_db.min_reputation.bits) {
                    return Ok(false);
                }
            },
            None => {},
        }
        let mark = Ratio::new(8, 10);
        let mut i: usize = 0;
        while i < self.detection_engine.sybil_groups.len()
            invariant
                i <= self.detection_engine.sybil_groups@.len(),
                mark == (Ratio { num: 8, den: 10 }),
                forall|k: int|
                    0 <= k < i ==> !in_group(
                        #[trigger] self.detection_engine.sybil_groups@[k],
                        identity@,
                        mark,
                    ),
            decreases self.detection_engine.sybil_groups@.len() - i,
        {
            let group = &self.detection_engine.sybil_groups[i];
            if lists(&group.members, identity) && group.confidence.exceeds(&mark) {
                return Ok(false);
            }
            i = i + 1;
        }
        Ok(true)
    }

    /// Register new relay
    pub fn register_relay(&mut self, info: RelayInfo, now: Instant) -> (r: Result<
        (),
        RoutingError,
    >)
        requires
            old(self).wf(),
        ensures
            final(self).wf(),
            final(self).config == old(self).config,
            final(self).detection_engine == old(self).detection_engine,
            final(self).stake_verifier == old(self).stake_verifier,
            final(self).diversity_checker == old(self).diversity_checker,
            final(self).blocked_relays == old(self).blocked_relays,
            final(self).reputation_db.min_reputation == old(self).reputation_db.min_reputation,
            ({
                let required = old(self).stake_verifier.stake_requirements.of(info.relay_type);
                if info.stake_amount < required {
                    &&& r matches Err(e) && e@ == RoutingFailure::ResourceAllocationFailed(
                        "Insufficient stake: "@ + decimal_text(info.stake_amount as nat) + " < "@
                            + decimal_text(required as nat),
                    )
                    &&& final(self).reputation_db.entries == old(self).reputation_db.entries
                } else {
                    &&& r is Ok
                    &&& final(self).reputation_db.entries@.dom() == old(
                        self,
                    ).reputation_db.entries@.dom().insert(info.identity@)
                    &&& final(self).reputation_db.entries@[info.identity@]@ == newcomer(
                        info.identity@,
                        now,
                    )
                    &&& final(self).reputation_db.entries@.remove(info.identity@) == old(
                        self,
                    ).reputation_db.entries@.remove(info.identity@)
                }
            }),
            r is Ok <==> info.stake_amount >= old(self).stake_verifier.stake_requirements.of(
                info.relay_type,
            ),
    {
        let required: u64 = self.stake_verifier.stake_requirements.required(info.relay_type);
        if info.stake_amount < required {
            let head = text::joined(
                "Insufficient stake: ",
                text::decimal(info.stake_amount).as_str(),
            );
            let middle = text::joined(head.as_str(), " < ");
            let words = text::joined(middle.as_str(), text::decimal(required).as_str());
            return Err(RoutingError::ResourceAllocationFailed(words));
        }
        let entry = ReputationEntry {
            identity: info.identity.clone(),
            score: Reading { bits: ONE_HALF },
            successes: 0,
            failures: 0,
            first_seen: now,
            last_update: now,
            flags: Vec::new(),
        };
        assert(entry@ == newcomer(info.identity@, now)) by {
            assert(texts(entry.flags@) =~= Seq::<Seq<char>>::empty());
        }
        self.reputation_db.entries.insert(info.identity.as_str(), entry);
        proof {
            let name = info.identity@;
            assert(self.reputation_db.entries@.remove(name) =~= old(
                self,
            ).reputation_db.entries@.remove(name));
            assert(self.reputation_db.entries@.dom() =~= old(
                self,
            ).reputation_db.entries@.dom().insert(name));
        }
        Ok(())
    }

    /// Report relay behavior. `score` is the relay's new score, which the caller
    /// computes from the old one: nine tenths of it, and a tenth more, up to one,
    /// after a success; nine tenths after a failure; eight tenths after
    /// suspicious behavior.
    pub fn report_behavior(
        &mut self,
        identity: &str,
        behavior: RelayBehavior,
        score: Reading,
        now: Instant,
    )
        requires
            old(self).wf(),
            old(self).reputation_db.entries@.dom().contains(identity@) ==> old(
                self,
            ).reputation_db.entries@[identity@].successes < u64::MAX && old(
                self,
            ).reputation_db.entries@[identity@].failures < u64::MAX,
        ensures
            final(self).wf(),
            final(self).config == old(self).config,
            final(self).detection_engine == old(self).detection_engine,
            final(self).stake_verifier == old(self).stake_verifier,
            final(self).diversity_checker == old(self).diversity_checker,
            final(self).blocked_relays == old(self).blocked_relays,
            final(self).reputation_db.min_reputation == old(self).reputation_db.min_reputation,
            final(self).reputation_db.entries@.dom() == old(self).reputation_db.entries@.dom(),
            final(self).reputation_db.entries@.remove(identity@) == old(
                self,
            ).reputation_db.entries@.remove(identity@),
            old(self).reputation_db.entries@.dom().contains(identity@)
                ==> final(self).reputation_db.entries@[identity@]@ == reported(
                old(self).reputation_db.entries@[identity@]@,
                behavior,
                score,
                now,
            ),
    {
        match self.reputation_db.entries.remove(identity) {
            Some(mut entry) => {
                let ghost before = entry@;
                match behavior {
                    RelayBehavior::Success => {
                        entry.successes = entry.successes + 1;
                    },
                    RelayBehavior::Failure => {
                        entry.failures = entry.failures + 1;
                    },
                    RelayBehavior::Suspicious => {
                        let ghost flags = entry.flags@;
                        entry.flags.push("suspicious".to_owned());
                        assert(texts(entry.flags@) =~= texts(flags).push("suspicious"@));
                    },
                }
                entry.score = score;
                entry.last_update = now;
                assert(entry@ == reported(before, behavior, score, now));
                self.reputation_db.entries.insert(identity, entry);
            },
            None => {},
        }
        proof {
            assert(self.reputation_db.entries@.remove(identity@) =~= old(
                self,
            ).reputation_db.entries@.remove(identity@));
            assert(self.reputation_db.entries@.dom() =~= old(self).reputation_db.entries@.dom());
        }
    }

    /// Detect Sybil groups
    pub fn detect_sybils(&self) -> (r: Vec<SybilGroup>)
        ensures
            group_views(r@) == group_views(self.detection_engine.sybil_groups@),
    {
        let groups = &self.detection_engine.sybil_groups;
        let mut r: Vec<SybilGroup> = Vec::new();
        let mut i: usize = 0;
        while i < groups.len()
            invariant
                groups@ == self.detection_engine.sybil_groups@,
                i <= groups@.len(),
                r@.len() == i,
                forall|k: int| 0 <= k < i ==> (#[trigger] r@[k])@ == groups@[k]@,
            decreases groups@.len() - i,
        {
            r.push(
                SybilGroup {
                    group_id: groups[i].group_id.clone(),
                    members: copied(&groups[i].members),
                    confidence: groups[i].confidence,
                    detected_at: groups[i].detected_at,
                },
            );
            i = i + 1;
        }
        assert(group_views(r@) =~= group_views(groups@));
        r
    }

    /// Get relay reputation
    pub fn get_reputation(&self, identity: &str) -> (r: Option<Reading>)
        requires
            self.wf(),
        ensures
            r == (if self.reputation_db.entries@.dom().contains(identity@) {
                Some(self.reputation_db.entries@[identity@].score)
            } else {
                None::<Reading>
            }),
    {
        match self.reputation_db.entries.get(identity) {
            Some(entry) => Some(entry.score),
            None => None,
        }
    }
}

/// Whether a group lists a relay, with a confidence above `mark`.
pub open spec fn in_group(group: SybilGroup, identity: Seq<char>, mark: Ratio) -> bool {
    group.confidence.above(mark) && exists|k: int|
        0 <= k < group.members@.len() && (#[trigger] group.members@[k])@ == identity
}

fn lists(names: &Vec<String>, name: &str) -> (r: bool)
    ensures
        r == exists|k: int| 0 <= k < names@.len() && (#[trigger] names@[k])@ == name@,
{
    let mut i: usize = 0;
    while i < names.len()
        invariant
            i <= names@.len(),
            forall|k: int| 0 <= k < i ==> (#[trigger] names@[k])@ != name@,
        decreases names@.len() - i,
    {
        if text::same(names[i].as_str(), name) {
            assert(names@[i as int]@ == name@);
            return true;
        }
        i = i + 1;
    }
    false
}

/// A blocked relay does not pass, whatever else is known of it.
pub proof fn law_blocked_relays_fail(shield: SybilShield, identity: Seq<char>)
    requires
        shield.blocked_relays@.contains(identity),
    ensures
        !shield.passes(identity),
{
}

/// Whoever is blocked for a group with a confidence above nine tenths failed
/// before as well.
pub proof fn law_blocking_confirms(shield: SybilShield, identity: Seq<char>)
    requires
        shield.grouped(identity, Ratio { num: 9, den: 10 }),
    ensures
        !shield.passes(identity),
{
    let i = choose|i: int|
        0 <= i < shield.detection_engine.sybil_groups@.len() && in_group(
            #[trigger] shield.detection_engine.sybil_groups@[i],
            identity,
            Ratio { num: 9, den: 10 },
        );
    let group = shield.detection_engine.sybil_groups@[i];
    assert(in_group(group, identity, Ratio { num: 8, den: 10 }));
}

/// A relay that has just been registered passes, unless it is blocked or
/// belongs to a detected group.
pub proof fn law_newcomers_pass(shield: SybilShield, identity: Seq<char>, now: Instant)
    requires
        shield.reputation_db.entries@.dom().contains(identity),
        shield.reputation_db.entries@[identity]@ == newcomer(identity, now),
        shield.reputation_db.min_reputation == (Reading { bits: ONE_HALF }),
        !shield.blocked_relays@.contains(identity),
        !shield.grouped(identity, Ratio { num: 8, den: 10 }),
    ensures
        shield.passes(identity),
{
}

/// A relay passes exactly if it is not blocked, its score, where it has one, is no
/// less than a half, and every group that lists it has a confidence of at most eight
/// tenths. Scores are here multiplied by 2 to the power 1074.
#[verifier::rlimit(40)]
pub proof fn law_who_passes(shield: SybilShield, identity: Seq<char>)
    requires
        shield.reputation_db.min_reputation == (Reading { bits: ONE_HALF }),
        shield.reputation_db.entries@.dom().contains(identity),
        shield.reputation_db.entries@[identity].score.finite(),
    ensures
        shield.passes(identity) <==> {
            &&& !shield.blocked_relays@.contains(identity)
            &&& 2 * shield.reputation_db.entries@[identity].score.scaled() >= pow2(1074)
            &&& forall|i: int, k: int|
                #![trigger shield.detection_engine.sybil_groups@[i].members@[k]]
                0 <= i < shield.detection_engine.sybil_groups@.len() && 0 <= k
                    < shield.detection_engine.sybil_groups@[i].members@.len()
                    && shield.detection_engine.sybil_groups@[i].members@[k]@ == identity ==> 10
                    * shield.detection_engine.sybil_groups@[i].confidence.num <= 8
                    * shield.detection_engine.sybil_groups@[i].confidence.den
        },
{
    let score = shield.reputation_db.entries@[identity].score;
    reading::law_marks_are_exact();
    reading::law_order_of_patterns(score, Reading { bits: ONE_HALF });
    vstd::arithmetic::power2::lemma_pow2_unfold(1074);
    let groups = shield.detection_engine.sybil_groups@;
    let mark = Ratio { num: 8, den: 10 };
    assert forall|i: int| 0 <= i < groups.len() implies (#[trigger] groups[i]).confidence.above(mark)
        == (10 * groups[i].confidence.num > 8 * groups[i].confidence.den) by {
        lemma_above_eight_tenths(groups[i].confidence);
    }
    if shield.grouped(identity, mark) {
        let i = choose|i: int|
            0 <= i < groups.len() && in_group(#[trigger] groups[i], identity, mark);
        let k = choose|k: int|
            0 <= k < groups[i].members@.len() && (#[trigger] groups[i].members@[k])@ == identity;
        assert(groups[i].members@[k]@ == identity);
        assert(groups[i].confidence.above(mark));
    } else {
        assert forall|i: int, k: int|
            #![trigger groups[i].members@[k]]
            0 <= i < groups.len() && 0 <= k < groups[i].members@.len() && groups[i].members@[k]@
                == identity implies 10 * groups[i].confidence.num <= 8
            * groups[i].confidence.den by {
            assert(!in_group(groups[i], identity, mark));
        }
    }
}

proof fn lemma_above_eight_tenths(c: Ratio)
    ensures
        c.above(Ratio { num: 8, den: 10 }) == (10 * c.num > 8 * c.den),
{
    let mark = Ratio { num: 8, den: 10 };
    assert(c.num * mark.den == 10 * c.num) by (nonlinear_arith)
        requires
            mark.den == 10,
    ;
    assert(mark.num * c.den == 8 * c.den) by (nonlinear_arith)
        requires
            mark.num == 8,
    ;
}

/// Every report counts once, under what it says, and leaves everything that it does
/// not speak of as it was.
pub proof fn law_reports_are_counted(
    entry: ReputationView,
    behavior: RelayBehavior,
    score: Reading,
    now: Instant,
)
    requires
        entry.successes < u64::MAX,
        entry.failures < u64::MAX,
    ensures
        ({
            let after = reported(entry, behavior, score, now);
            &&& after.successes + after.failures + after.flags.len() == entry.successes
                + entry.failures + entry.flags.len() + 1
            &&& after.successes > entry.successes <==> behavior == RelayBehavior::Success
            &&& after.failures > entry.failures <==> behavior == RelayBehavior::Failure
            &&& after.flags.len() > entry.flags.len() <==> behavior == RelayBehavior::Suspicious
            &&& entry.flags.is_prefix_of(after.flags)
            &&& after.identity == entry.identity
            &&& after.first_seen == entry.first_seen
            &&& after.last_update == now
            &&& after.score == score
        }),
{
}

/// A new shield asks a stake of 1000 of a guard, 500 of a middle relay and 2000 of
/// an exit.
pub proof fn law_stakes_of_a_new_shield(shield: SybilShield, config: RoutingConfig)
    requires
        shield.is_new(config),
    ensures
        shield.stake_verifier.stake_requirements.of(RelayType::Guard) == 1000,
        shield.stake_verifier.stake_requirements.of(RelayType::Middle) == 500,
        shield.stake_verifier.stake_requirements.of(RelayType::Exit) == 2000,
{
}

/// The size of a subnet: how many addresses share a prefix.
pub open spec fn subnet_size(prefix_len: u8) -> nat {
    pow2((32 - prefix_len) as nat)
}

/// The first address of the subnet that an address lies in.
pub open spec fn subnet_of(address: u32, prefix_len: u8) -> int {
    address as int / subnet_size(prefix_len) as int * subnet_size(prefix_len) as int
}

/// Whether two addresses are 32-bit addresses of one subnet.
pub open spec fn same_subnet(a: IpAddr, b: IpAddr, prefix_len: u8) -> bool {
    match (a, b) {
        (IpAddr::V4(x), IpAddr::V4(y)) => subnet_of(x, prefix_len) == subnet_of(y, prefix_len),
        _ => false,
    }
}

/// A subnet begins at a multiple of its size, which is 2 to the power 32 less the
/// length of the prefix, and holds the addresses from there on, as many as it is
/// large; two addresses lie in one subnet exactly if each lies in the other's.
pub proof fn law_what_a_subnet_holds(x: u32, y: u32, prefix_len: u8)
    requires
        prefix_len <= 32,
    ensures
        ({
            let size = pow2((32 - prefix_len) as nat) as int;
            let first = subnet_of(x, prefix_len);
            &&& first % size == 0
            &&& first <= x < first + size
            &&& same_subnet(IpAddr::V4(x), IpAddr::V4(y), prefix_len) <==> first <= y < first + size
        }),
{
    let size = pow2((32 - prefix_len) as nat) as int;
    vstd::arithmetic::power2::lemma_pow2_pos((32 - prefix_len) as nat);
    lemma_multiple_below(x as int, size);
    lemma_multiple_below(y as int, size);
    let a = x as int / size;
    let b = y as int / size;
    let first = a * size;
    vstd::arithmetic::div_mod::lemma_mod_multiples_basic(a, size);
    if a * size <= y < a * size + size {
        assert(a == b) by (nonlinear_arith)
            requires
                a * size <= y < a * size + size,
                b * size <= y < b * size + size,
                size > 0,
        ;
    }
}

proof fn lemma_multiple_below(x: int, size: int)
    requires
        size > 0,
    ensures
        x / size * size <= x < x / size * size + size,
{
    vstd::arithmetic::div_mod::lemma_fundamental_div_mod(x, size);
    vstd::arithmetic::div_mod::lemma_mod_bound(x, size);
    assert(size * (x / size) == x / size * size) by (nonlinear_arith);
}

/// Addresses that share sixteen bits are those whose first two bytes are the same,
/// and addresses that share twenty-four those whose first three bytes are; a long
/// address shares its subnet with none.
pub proof fn law_usual_subnets(a: IpAddr, b: IpAddr)
    ensures
        same_subnet(a, b, 16) <==> (a matches IpAddr::V4(x) && b matches IpAddr::V4(y) && x / 0x1_0000
            == y / 0x1_0000),
        same_subnet(a, b, 24) <==> (a matches IpAddr::V4(x) && b matches IpAddr::V4(y) && x / 0x100
            == y / 0x100),
        same_subnet(a, b, 32) <==> a is V4 && a == b,
{
    vstd::arithmetic::power2::lemma2_to64();
    if let (IpAddr::V4(x), IpAddr::V4(y)) = (a, b) {
        law_what_a_subnet_holds(x, y, 16);
        law_what_a_subnet_holds(x, y, 24);
        law_what_a_subnet_holds(x, y, 32);
    }
}

/// Whether `std` takes a character for a number: its general category is one of
/// the three for numbers.
pub uninterp spec fn numeric_char(c: char) -> bool;

/// [`char::is_numeric`] depends on the character alone and is called
/// [`numeric_char`] of it. Of the ASCII characters it holds for the ten digits
/// and no others.
pub assume_specification[ char::is_numeric ](c: char) -> (r: bool)
    ensures
        r == numeric_char(c),
        c as u32 <= 0x7F ==> r == ('0' <= c && c <= '9'),
;

/// A text without the numeric characters at its end.
pub open spec fn stem(s: Seq<char>) -> Seq<char>
    decreases s.len(),
{
    if s.len() > 0 && numeric_char(s.last()) {
        stem(s.drop_last())
    } else {
        s
    }
}

/// The stem of a text is its beginning: behind it stand only numeric characters, and
/// it does not end in one. One numeric character more changes nothing.
pub proof fn law_what_the_stem_is(s: Seq<char>, c: char)
    ensures
        stem(s).is_prefix_of(s),
        forall|i: int| stem(s).len() <= i < s.len() ==> numeric_char(#[trigger] s[i]),
        stem(s).len() > 0 ==> !numeric_char(stem(s).last()),
        numeric_char(c) ==> stem(s.push(c)) == stem(s),
        !numeric_char(c) ==> stem(s.push(c)) == s.push(c),
    decreases s.len(),
{
    assert(s.push(c).drop_last() =~= s);
    if s.len() > 0 && numeric_char(s.last()) {
        law_what_the_stem_is(s.drop_last(), c);
        assert forall|i: int| stem(s).len() <= i < s.len() implies numeric_char(#[trigger] s[i]) by {
            if i < s.len() - 1 {
                assert(s[i] == s.drop_last()[i]);
            }
        }
    }
}

/// What is left of marks without the true ones at their end.
pub open spec fn stem_length(marks: Seq<bool>) -> nat
    decreases marks.len(),
{
    if marks.len() > 0 && marks.last() {
        stem_length(marks.drop_last())
    } else {
        marks.len()
    }
}

proof fn lemma_stem(s: Seq<char>, marks: Seq<bool>)
    requires
        marks.len() == s.len(),
        forall|i: int| 0 <= i < s.len() ==> marks[i] == numeric_char(#[trigger] s[i]),
    ensures
        stem_length(marks) <= s.len(),
        stem(s) == s.take(stem_length(marks) as int),
    decreases s.len(),
{
    if s.len() > 0 && numeric_char(s.last()) {
        assert(marks.last() == numeric_char(s[s.len() - 1]));
        assert forall|i: int| 0 <= i < s.len() - 1 implies marks.drop_last()[i] == numeric_char(
            #[trigger] s.drop_last()[i],
        ) by {
            assert(marks[i] == numeric_char(s[i]));
        }
        lemma_stem(s.drop_last(), marks.drop_last());
        assert(s.drop_last().take(stem_length(marks) as int) =~= s.take(
            stem_length(marks) as int,
        ));
    } else {
        if s.len() > 0 {
            assert(marks.last() == numeric_char(s[s.len() - 1]));
        }
        assert(s.take(s.len() as int) =~= s);
    }
}

/// What is left of marks is their beginning: behind it stand only true ones, and it
/// does not end in one.
pub proof fn law_what_is_left_of_marks(marks: Seq<bool>)
    ensures
        stem_length(marks) <= marks.len(),
        forall|i: int| stem_length(marks) <= i < marks.len() ==> #[trigger] marks[i],
        stem_length(marks) > 0 ==> !marks[stem_length(marks) - 1],
    decreases marks.len(),
{
    if marks.len() > 0 && marks.last() {
        let less = marks.drop_last();
        law_what_is_left_of_marks(less);
        assert forall|i: int| stem_length(marks) <= i < marks.len() implies #[trigger] marks[i] by {
            if i < less.len() {
                assert(less[i] == marks[i]);
            }
        }
    }
}

/// How much is left of a text, where `numeric` says which of its characters are
/// numeric, when the numeric ones at its end are taken off.
pub fn trimmed_length(numeric: &Vec<bool>) -> (r: usize)
    ensures
        r == stem_length(numeric@),
        r <= numeric@.len(),
{
    let mut n: usize = numeric.len();
    assert(numeric@.take(n as int) =~= numeric@);
    while n > 0 && numeric[n - 1]
        invariant
            n <= numeric@.len(),
            stem_length(numeric@) == stem_length(numeric@.take(n as int)),
        decreases n,
    {
        assert(numeric@.take(n as int).drop_last() =~= numeric@.take(n - 1));
        n = n - 1;
    }
    assert(n > 0 ==> numeric@.take(n as int).last() == numeric@[n - 1]);
    n
}

/// The part of a nickname before the numeric characters at its end.
fn nickname_stem(nick: &str) -> (r: Vec<char>)
    ensures
        r@ == stem(nick@),
{
    let all = text::characters(nick);
    let mut numeric: Vec<bool> = Vec::new();
    let mut i: usize = 0;
    while i < all.len()
        invariant
            i <= all@.len(),
            numeric@.len() == i,
            forall|k: int| 0 <= k < i ==> numeric@[k] == numeric_char(#[trigger] all@[k]),
        decreases all@.len() - i,
    {
        numeric.push(all[i].is_numeric());
        i = i + 1;
    }
    let n: usize = trimmed_length(&numeric);
    let mut r: Vec<char> = Vec::new();
    let mut k: usize = 0;
    while k < n
        invariant
            k <= n <= all@.len(),
            r@ == all@.take(k as int),
        decreases n - k,
    {
        r.push(all[k]);
        assert(all@.take(k + 1) =~= all@.take(k as int).push(all@[k as int]));
        k = k + 1;
    }
    proof {
        lemma_stem(all@, numeric@);
    }
    r
}

fn same_characters(a: &Vec<char>, b: &Vec<char>) -> (r: bool)
    ensures
        r == (a@ == b@),
{
    if a.len() != b.len() {
        return false;
    }
    let mut i: usize = 0;
    while i < a.len()
        invariant
            a@.len() == b@.len(),
            i <= a@.len(),
            forall|k: int| 0 <= k < i ==> a@[k] == b@[k],
        decreases a@.len() - i,
    {
        if a[i] != b[i] {
            return false;
        }
        i = i + 1;
    }
    assert(a@ =~= b@);
    true
}

/// How alike two relays are, between zero and one: the fraction `num / den`.
#[derive(Debug, Clone, Copy, PartialEq, Eq, Structural)]
pub struct Similarity {
    /// Numerator.
    pub num: u128,
    /// Denominator.
    pub den: u128,
}

impl Similarity {
    /// Whether the similarity is above `tenths` tenths.
    pub open spec fn above_tenths(self, tenths: u64) -> bool {
        10 * self.num > tenths * self.den
    }

    /// Whether the similarity is above `tenths` tenths.
    pub fn exceeds_tenths(&self, tenths: u64) -> (r: bool)
        requires
            self.num <= 0xFFFF_FFFF_FFFF_FFFF_FFFF,
            self.den <= 0xFFFF_FFFF_FFFF_FFFF_FFFF,
            tenths <= 10,
        ensures
            r == self.above_tenths(tenths),
    {
        let t: u128 = tenths as u128;
        assert(0 <= t * self.den <= 10 * self.den) by (nonlinear_arith)
            requires
                t <= 10,
        ;
        10 * self.num > t * self.den
    }
}

/// The lesser of two bandwidths.
pub open spec fn lesser(a: u64, b: u64) -> u64 {
    if a < b {
        a
    } else {
        b
    }
}

/// The greater of two bandwidths, and at least one.
pub open spec fn greater(a: u64, b: u64) -> u64 {
    let g = if a < b {
        b
    } else {
        a
    };
    if g < 1 {
        1
    } else {
        g
    }
}

/// Whether two nicknames are the same but for the numbers at their ends.
pub open spec fn alike_nicknames(a: Seq<char>, b: Seq<char>) -> bool {
    stem(a) == stem(b) && stem(a).len() > 0
}

/// Nicknames without anything before their numbers are like no other, a nickname with
/// something before them is like itself, and it does not matter which comes first.
pub proof fn law_alike_nicknames(a: Seq<char>, b: Seq<char>)
    ensures
        stem(a).len() == 0 ==> !alike_nicknames(a, b),
        stem(a).len() > 0 ==> alike_nicknames(a, a),
        alike_nicknames(a, b) == alike_nicknames(b, a),
        alike_nicknames(a, b) ==> a.len() > 0 && b.len() > 0 && a[0] == b[0],
{
    law_what_the_stem_is(a, 'a');
    law_what_the_stem_is(b, 'a');
    if alike_nicknames(a, b) {
        assert(stem(a)[0] == a[0]);
        assert(stem(b)[0] == b[0]);
    }
}

/// How alike two relays are: three tenths for addresses that share sixteen bits,
/// three tenths times the lesser bandwidth over the greater, and four tenths for
/// nicknames of one pattern.
pub open spec fn similarity_of(a: RelayInfo, b: RelayInfo) -> Similarity {
    let high = greater(a.bandwidth, b.bandwidth);
    let address: int = if same_subnet(a.address, b.address, 16) {
        3 * high
    } else {
        0
    };
    let nickname: int = if alike_nicknames(a.nickname@, b.nickname@) {
        4 * high
    } else {
        0
    };
    Similarity {
        num: (address + 3 * lesser(a.bandwidth, b.bandwidth) + nickname) as u128,
        den: (10 * high) as u128,
    }
}

/// Whether two relays are alike enough to be tied to one another.
pub open spec fn tied(a: RelayInfo, b: RelayInfo) -> bool {
    similarity_of(a, b).above_tenths(8)
}

/// Similarity does not depend on the order of the relays.
pub proof fn law_similarity_is_symmetric(a: RelayInfo, b: RelayInfo)
    ensures
        similarity_of(a, b) == similarity_of(b, a),
        tied(a, b) == tied(b, a),
{
}

/// Two relays are tied to one another exactly when they share a subnet and a
/// pattern of nicknames and neither has three times the bandwidth of the other.
pub proof fn law_ties(a: RelayInfo, b: RelayInfo)
    ensures
        tied(a, b) == (same_subnet(a.address, b.address, 16) && alike_nicknames(
            a.nickname@,
            b.nickname@,
        ) && 3 * lesser(a.bandwidth, b.bandwidth) > greater(a.bandwidth, b.bandwidth)),
{
}

impl SybilDetector {
    /// Extract subnet from IPv4 address
    pub fn extract_subnet(v4: u32, prefix_len: u8) -> (r: u32)
        requires
            1 <= prefix_len <= 32,
        ensures
            r == subnet_of(v4, prefix_len),
    {
        let shift: u32 = 32 - prefix_len as u32;
        assert(shift < 32 ==> 1u32 << shift >= 1) by (bit_vector);
        let mask: u32 = !((1u32 << shift) - 1);
        proof {
            lemma_mask(v4, shift);
        }
        v4 & mask
    }

    /// Check if two IPs are in the same subnet
    pub fn same_subnet_check(ip1: &IpAddr, ip2: &IpAddr, prefix_len: u8) -> (r: bool)
        requires
            ip1 is V4 && ip2 is V4 ==> 1 <= prefix_len <= 32,
        ensures
            r == same_subnet(*ip1, *ip2, prefix_len),
    {
        match (ip1, ip2) {
            (IpAddr::V4(v1), IpAddr::V4(v2)) => Self::extract_subnet(*v1, prefix_len)
                == Self::extract_subnet(*v2, prefix_len),
            _ => false,
        }
    }

    /// Check if nicknames follow similar patterns
    pub fn similar_nicknames(nick1: &str, nick2: &str) -> (r: bool)
        ensures
            r == alike_nicknames(nick1@, nick2@),
    {
        let pattern1 = nickname_stem(nick1);
        let pattern2 = nickname_stem(nick2);
        same_characters(&pattern1, &pattern2) && pattern1.len() > 0
    }

    /// Calculate similarity between two relays
    pub fn calculate_similarity(relay1: &RelayInfo, relay2: &RelayInfo) -> (r: Similarity)
        ensures
            r == similarity_of(*relay1, *relay2),
            r.num <= r.den <= 10 * u64::MAX,
            r.den > 0,
    {
        let (low, mut high): (u64, u64) = if relay1.bandwidth < relay2.bandwidth {
            (relay1.bandwidth, relay2.bandwidth)
        } else {
            (relay2.bandwidth, relay1.bandwidth)
        };
        if high < 1 {
            high = 1;
        }
        let wide: u128 = high as u128;
        let mut num: u128 = 3 * low as u128;
        if Self::same_subnet_check(&relay1.address, &relay2.address, 16) {
            num = num + 3 * wide;
        }
        if Self::similar_nicknames(relay1.nickname.as_str(), relay2.nickname.as_str()) {
            num = num + 4 * wide;
        }
        Similarity { num, den: 10 * wide }
    }
}

proof fn lemma_mask(address: u32, shift: u32)
    requires
        shift < 32,
    ensures
        (address & !(((1u32 << shift) - 1) as u32)) == address as int / pow2(shift as nat) as int
            * pow2(shift as nat) as int,
{
    assert(address & !(((1u32 << shift) - 1) as u32) == (address >> shift) << shift)
        by (bit_vector)
        requires
            shift < 32,
    ;
    vstd::bits::lemma_u32_shr_is_div(address, shift);
    vstd::arithmetic::power2::lemma_pow2_pos(shift as nat);
    let top: u32 = address >> shift;
    let size = pow2(shift as nat) as int;
    vstd::arithmetic::div_mod::lemma_fundamental_div_mod(address as int, size);
    assert(top as int * size <= address) by {
        assert(size * (address as int / size) == (address as int / size) * size)
            by (nonlinear_arith);
        assert(0 <= address as int % size);
    }
    vstd::bits::lemma_u32_shl_is_mul(top, shift);
}

/// Of the similarity, one subnet is worth three tenths, one pattern of nicknames
/// four tenths, and equal bandwidths the other three: of two relays that differ from
/// a third in the one or in the other alone, the more alike is more alike by just
/// that much.
pub proof fn law_what_similarity_is_made_of(a: RelayInfo, other: RelayInfo, b: RelayInfo)
    requires
        other.bandwidth == a.bandwidth,
    ensures
        ({
            let s = similarity_of(a, b);
            let t = similarity_of(other, b);
            let near = same_subnet(a.address, b.address, 16) && !same_subnet(
                other.address,
                b.address,
                16,
            );
            let named = alike_nicknames(a.nickname@, b.nickname@) && !alike_nicknames(
                other.nickname@,
                b.nickname@,
            );
            &&& s.den == t.den && s.den > 0
            &&& near && other.nickname == a.nickname ==> 10 * (s.num - t.num) == 3 * s.den
            &&& named && other.address == a.address ==> 10 * (s.num - t.num) == 4 * s.den
            &&& !same_subnet(a.address, b.address, 16) && !alike_nicknames(a.nickname@, b.nickname@)
                && a.bandwidth == b.bandwidth && a.bandwidth > 0 ==> 10 * s.num == 3 * s.den
            &&& same_subnet(a.address, b.address, 16) && alike_nicknames(a.nickname@, b.nickname@)
                && a.bandwidth == b.bandwidth && a.bandwidth > 0 ==> s.num == s.den
        }),
{
}

/// Relays of one bandwidth alone are not alike, the more the bandwidths differ the
/// less: half the bandwidth is worth half of three tenths.
pub proof fn law_bandwidth_counts_by_its_share(a: RelayInfo, b: RelayInfo)
    requires
        0 < a.bandwidth <= b.bandwidth,
        !same_subnet(a.address, b.address, 16),
        !alike_nicknames(a.nickname@, b.nickname@),
    ensures
        similarity_of(a, b).num * (10 * b.bandwidth) == similarity_of(a, b).den * (3 * a.bandwidth),
{
    let s = similarity_of(a, b);
    assert(s.num == 3 * a.bandwidth && s.den == 10 * b.bandwidth);
    assert((3 * a.bandwidth) * (10 * b.bandwidth) == (10 * b.bandwidth) * (3 * a.bandwidth))
        by (nonlinear_arith);
}

/// The identities of the relays with a label, in order.
pub open spec fn carriers(
    relays: Seq<RelayInfo>,
    label: spec_fn(RelayInfo) -> Option<Seq<char>>,
    wanted: Seq<char>,
) -> Seq<Seq<char>>
    decreases relays.len(),
{
    if relays.len() == 0 {
        Seq::empty()
    } else {
        let rest = carriers(relays.drop_last(), label, wanted);
        if label(relays.last()) == Some(wanted) {
            rest.push(relays.last().identity@)
        } else {
            rest
        }
    }
}

/// The relays with a label are found wherever they stand, in their order: those of
/// two lists come one after the other, a relay counts exactly if it has the label,
/// and nobody else does.
pub proof fn law_carriers_are_found(
    a: Seq<RelayInfo>,
    b: Seq<RelayInfo>,
    label: spec_fn(RelayInfo) -> Option<Seq<char>>,
    wanted: Seq<char>,
)
    ensures
        carriers(a + b, label, wanted) == carriers(a, label, wanted) + carriers(b, label, wanted),
        a.len() == 1 && label(a[0]) == Some(wanted) ==> carriers(a, label, wanted) == seq![
            a[0].identity@,
        ],
        a.len() == 1 && label(a[0]) != Some(wanted) ==> carriers(a, label, wanted).len() == 0,
        a.len() == 0 ==> carriers(a, label, wanted).len() == 0,
    decreases b.len(),
{
    if a.len() == 1 {
        assert(a.drop_last() =~= Seq::<RelayInfo>::empty());
        assert(carriers(a.drop_last(), label, wanted) =~= Seq::<Seq<char>>::empty());
        assert(Seq::<Seq<char>>::empty().push(a[0].identity@) =~= seq![a[0].identity@]);
    }
    if b.len() == 0 {
        assert(a + b =~= a);
        assert(carriers(a, label, wanted) + carriers(b, label, wanted) =~= carriers(
            a,
            label,
            wanted,
        ));
    } else {
        law_carriers_are_found(a, b.drop_last(), label, wanted);
        assert((a + b).drop_last() =~= a + b.drop_last());
        assert(carriers(a + b, label, wanted) =~= carriers(a, label, wanted) + carriers(
            b,
            label,
            wanted,
        ));
    }
}

/// There is a group for a label exactly if enough relays have it, and the group lists
/// just these.
pub proof fn law_groups_are_complete(
    groups: Seq<SybilGroup>,
    relays: Seq<RelayInfo>,
    label: spec_fn(RelayInfo) -> Option<Seq<char>>,
    least: int,
    confidence: Ratio,
    now: Instant,
    wanted: Seq<char>,
)
    requires
        grouped_by(groups, relays, label, least, confidence, now),
    ensures
        has_group(groups, wanted) <==> carriers(relays, label, wanted).len() >= least,
        forall|i: int|
            0 <= i < groups.len() && (#[trigger] groups[i]).group_id@ == wanted ==> texts(
                groups[i].members@,
            ) == carriers(relays, label, wanted) && groups[i].confidence == confidence,
{
    if has_group(groups, wanted) {
        let i = choose|i: int| 0 <= i < groups.len() && (#[trigger] groups[i]).group_id@ == wanted;
        assert(sound_group(groups[i], relays, label, least, confidence, now));
    }
}

/// Whether `groups` are the relays that share a label, for each label that at
/// least `least` relays have, in any order.
pub open spec fn grouped_by(
    groups: Seq<SybilGroup>,
    relays: Seq<RelayInfo>,
    label: spec_fn(RelayInfo) -> Option<Seq<char>>,
    least: int,
    confidence: Ratio,
    now: Instant,
) -> bool {
    &&& forall|i: int|
        0 <= i < groups.len() ==> sound_group(
            #[trigger] groups[i],
            relays,
            label,
            least,
            confidence,
            now,
        )
    &&& forall|i: int, j: int|
        0 <= i < j < groups.len() ==> (#[trigger] groups[i]).group_id@ != (
        #[trigger] groups[j]).group_id@
    &&& forall|l: Seq<char>| #[trigger]
        carriers(relays, label, l).len() >= least ==> has_group(groups, l)
}

/// Whether a group is the relays with the label that it is named after.
pub open spec fn sound_group(
    group: SybilGroup,
    relays: Seq<RelayInfo>,
    label: spec_fn(RelayInfo) -> Option<Seq<char>>,
    least: int,
    confidence: Ratio,
    now: Instant,
) -> bool {
    &&& group@.members == carriers(relays, label, group.group_id@)
    &&& group@.members.len() >= least
    &&& group.confidence == confidence
    &&& group.detected_at == now
}

/// Whether a group is named after a label.
pub open spec fn has_group(groups: Seq<SybilGroup>, l: Seq<char>) -> bool {
    exists|i: int| 0 <= i < groups.len() && (#[trigger] groups[i]).group_id@ == l
}

proof fn lemma_carrier_exists(
    relays: Seq<RelayInfo>,
    label: spec_fn(RelayInfo) -> Option<Seq<char>>,
    l: Seq<char>,
)
    requires
        carriers(relays, label, l).len() > 0,
    ensures
        exists|k: int| 0 <= k < relays.len() && label(#[trigger] relays[k]) == Some(l),
    decreases relays.len(),
{
    if label(relays.last()) == Some(l) {
        assert(label(relays[relays.len() - 1]) == Some(l));
    } else {
        let shorter = relays.drop_last();
        lemma_carrier_exists(shorter, label, l);
        let k = choose|k: int| 0 <= k < shorter.len() && label(#[trigger] shorter[k]) == Some(l);
        assert(label(relays[k]) == Some(l));
    }
}

/// The label of each relay, as far as it has one.
spec fn labelled(
    labels: Seq<Option<String>>,
    relays: Seq<RelayInfo>,
    label: spec_fn(RelayInfo) -> Option<Seq<char>>,
) -> bool {
    &&& labels.len() == relays.len()
    &&& forall|i: int|
        0 <= i < relays.len() ==> label(#[trigger] relays[i]) == label_text(labels[i])
}

spec fn label_text(l: Option<String>) -> Option<Seq<char>> {
    match l {
        Some(s) => Some(s@),
        None => None,
    }
}

fn has_label(l: &Option<String>, wanted: &str) -> (r: bool)
    ensures
        r == (label_text(*l) == Some(wanted@)),
{
    match l {
        Some(s) => text::same(s.as_str(), wanted),
        None => false,
    }
}

fn members_labelled(
    relays: &[RelayInfo],
    labels: &Vec<Option<String>>,
    wanted: &str,
    Ghost(label): Ghost<spec_fn(RelayInfo) -> Option<Seq<char>>>,
) -> (r: Vec<String>)
    requires
        labelled(labels@, relays@, label),
    ensures
        texts(r@) == carriers(relays@, label, wanted@),
{
    let mut r: Vec<String> = Vec::new();
    let mut i: usize = 0;
    assert(texts(r@) =~= Seq::<Seq<char>>::empty());
    while i < relays.len()
        invariant
            labelled(labels@, relays@, label),
            i <= relays@.len(),
            texts(r@) == carriers(relays@.take(i as int), label, wanted@),
        decreases relays@.len() - i,
    {
        let ghost before = r@;
        assert(relays@.take(i + 1).drop_last() =~= relays@.take(i as int));
        assert(relays@.take(i + 1).last() == relays@[i as int]);
        if has_label(&labels[i], wanted) {
            r.push(relays[i].identity.clone());
            assert(texts(r@) =~= texts(before).push(relays@[i as int].identity@));
        }
        i = i + 1;
    }
    assert(relays@.take(i as int) =~= relays@);
    r
}

fn group_labelled(
    relays: &[RelayInfo],
    labels: &Vec<Option<String>>,
    least: usize,
    confidence: Ratio,
    now: Instant,
    Ghost(label): Ghost<spec_fn(RelayInfo) -> Option<Seq<char>>>,
) -> (r: Vec<SybilGroup>)
    requires
        labelled(labels@, relays@, label),
        least >= 1,
    ensures
        grouped_by(r@, relays@, label, least as int, confidence, now),
{
    let mut groups: Vec<SybilGroup> = Vec::new();
    let mut i: usize = 0;
    while i < relays.len()
        invariant
            labelled(labels@, relays@, label),
            i <= relays@.len(),
            forall|g: int|
                0 <= g < groups@.len() ==> sound_group(
                    #[trigger] groups@[g],
                    relays@,
                    label,
                    least as int,
                    confidence,
                    now,
                ),
            forall|g: int|
                0 <= g < groups@.len() ==> exists|k: int|
                    0 <= k < i && label(#[trigger] relays@[k]) == Some(
                        (#[trigger] groups@[g]).group_id@,
                    ),
            forall|g: int, h: int|
                0 <= g < h < groups@.len() ==> (#[trigger] groups@[g]).group_id@ != (
                #[trigger] groups@[h]).group_id@,
            forall|k: int|
                #![trigger relays@[k]]
                0 <= k < i ==> (label(relays@[k]) matches Some(l) ==> (carriers(
                    relays@,
                    label,
                    l,
                ).len() >= least ==> has_group(groups@, l))),
        decreases relays@.len() - i,
    {
        let ghost before = groups@;
        assert(label(relays@[i as int]) == label_text(labels@[i as int]));
        match &labels[i] {
            None => {},
            Some(l) => {
                if !named(&groups, l.as_str()) {
                    let members = members_labelled(relays, labels, l.as_str(), Ghost(label));
                    if members.len() >= least {
                        let group = SybilGroup {
                            group_id: l.clone(),
                            members,
                            confidence,
                            detected_at: now,
                        };
                        groups.push(group);
                        assert(groups@[before.len() as int].group_id@ == l@);
                        assert(has_group(groups@, l@));
                    }
                }
            },
        }
        proof {
            assert forall|g: int| 0 <= g < groups@.len() implies exists|k: int|
                0 <= k < i + 1 && label(#[trigger] relays@[k]) == Some(
                    (#[trigger] groups@[g]).group_id@,
                ) by {
                if g < before.len() {
                    let k = choose|k: int|
                        0 <= k < i && label(#[trigger] relays@[k]) == Some(before[g].group_id@);
                    assert(label(relays@[k]) == Some(groups@[g].group_id@));
                } else {
                    assert(label(relays@[i as int]) == Some(groups@[g].group_id@));
                }
            }
            assert forall|l: Seq<char>| #[trigger] has_group(before, l) implies has_group(
                groups@,
                l,
            ) by {
                let g = choose|g: int| 0 <= g < before.len() && (#[trigger] before[g]).group_id@
                    == l;
                assert(groups@[g].group_id@ == l);
            }
        }
        i = i + 1;
    }
    proof {
        assert forall|l: Seq<char>| #[trigger]
            carriers(relays@, label, l).len() >= least implies has_group(groups@, l) by {
            lemma_carrier_exists(relays@, label, l);
            let k = choose|k: int| 0 <= k < relays@.len() && label(#[trigger] relays@[k]) == Some(
                l,
            );
            assert(label(relays@[k]) == Some(l));
        }
    }
    groups
}

fn named(groups: &Vec<SybilGroup>, l: &str) -> (r: bool)
    ensures
        r == has_group(groups@, l@),
{
    let mut i: usize = 0;
    while i < groups.len()
        invariant
            i <= groups@.len(),
            forall|k: int| 0 <= k < i ==> (#[trigger] groups@[k]).group_id@ != l@,
        decreases groups@.len() - i,
    {
        if text::same(groups[i].group_id.as_str(), l) {
            assert(groups@[i as int].group_id@ == l@);
            return true;
        }
        i = i + 1;
    }
    false
}

/// The name of the subnet that a relay with a 32-bit address lies in.
pub open spec fn subnet_label(prefix_len: u8) -> spec_fn(RelayInfo) -> Option<Seq<char>> {
    |relay: RelayInfo|
        match relay.address {
            IpAddr::V4(v4) => Some(
                "subnet-"@ + decimal_text(subnet_of(v4, prefix_len) as nat) + "/"@ + decimal_text(
                    prefix_len as nat,
                ),
            ),
            IpAddr::V6(_) => None,
        }
}

/// The name of a relay's pattern of behavior: its bandwidth in megabytes per
/// second and the lengths of its nickname and its fingerprint.
pub open spec fn behavior_label() -> spec_fn(RelayInfo) -> Option<Seq<char>> {
    |relay: RelayInfo|
        Some(
            "behavior-"@ + decimal_text((relay.bandwidth / 1_000_000) as nat) + "-"@
                + decimal_text(encode_utf8(relay.nickname@).len()) + "-"@ + decimal_text(
                encode_utf8(relay.fingerprint@).len(),
            ),
        )
}

impl SybilDetector {
    /// Finds the subnets with three relays or more, in no particular order
    pub fn detect_same_subnet(&self, relays: &[RelayInfo], prefix_len: u8, now: Instant) -> (r: Vec<
        SybilGroup,
    >)
        requires
            forall|i: int|
                0 <= i < relays@.len() && (#[trigger] relays@[i]).address is V4 ==> 1 <= prefix_len
                    <= 32,
        ensures
            grouped_by(
                r@,
                relays@,
                subnet_label(prefix_len),
                3,
                Ratio { num: 7, den: 10 },
                now,
            ),
    {
        let ghost label = subnet_label(prefix_len);
        let mut labels: Vec<Option<String>> = Vec::new();
        let mut i: usize = 0;
        while i < relays.len()
            invariant
                forall|k: int|
                    0 <= k < relays@.len() && (#[trigger] relays@[k]).address is V4 ==> 1
                        <= prefix_len <= 32,
                label == subnet_label(prefix_len),
                i <= relays@.len(),
                labels@.len() == i,
                forall|k: int|
                    0 <= k < i ==> label(#[trigger] relays@[k]) == label_text(labels@[k]),
            decreases relays@.len() - i,
        {
            let l = match &relays[i].address {
                IpAddr::V4(v4) => {
                    let subnet: u32 = Self::extract_subnet(*v4, prefix_len);
                    let head = text::joined("subnet-", text::decimal(subnet as u64).as_str());
                    let middle = text::joined(head.as_str(), "/");
                    Some(
                        text::joined(middle.as_str(), text::decimal(prefix_len as u64).as_str()),
                    )
                },
                IpAddr::V6(_) => None,
            };
            labels.push(l);
            i = i + 1;
        }
        group_labelled(relays, &labels, 3, Ratio::new(7, 10), now, Ghost(label))
    }

    /// Finds the patterns of behavior of four relays or more, in no particular
    /// order. The time window plays no part in the patterns.
    pub fn detect_coordinated_behavior(
        &self,
        relays: &[RelayInfo],
        _window: Duration,
        now: Instant,
    ) -> (r: Vec<SybilGroup>)
        ensures
            grouped_by(r@, relays@, behavior_label(), 4, Ratio { num: 6, den: 10 }, now),
    {
        let ghost label = behavior_label();
        let mut labels: Vec<Option<String>> = Vec::new();
        let mut i: usize = 0;
        while i < relays.len()
            invariant
                label == behavior_label(),
                i <= relays@.len(),
                labels@.len() == i,
                forall|k: int|
                    0 <= k < i ==> label(#[trigger] relays@[k]) == label_text(labels@[k]),
            decreases relays@.len() - i,
        {
            let relay = &relays[i];
            let nickname: usize = relay.nickname.as_str().as_bytes().len();
            let fingerprint: usize = relay.fingerprint.as_str().as_bytes().len();
            let a = text::joined("behavior-", text::decimal(relay.bandwidth / 1_000_000).as_str());
            let b = text::joined(a.as_str(), "-");
            let c = text::joined(b.as_str(), text::decimal(nickname as u64).as_str());
            let d = text::joined(c.as_str(), "-");
            let l = text::joined(d.as_str(), text::decimal(fingerprint as u64).as_str());
            labels.push(Some(l));
            i = i + 1;
        }
        group_labelled(relays, &labels, 4, Ratio::new(6, 10), now, Ghost(label))
    }
}

proof fn lemma_equal_numerals(n: nat, m: nat)
    requires
        decimal_text(n) == decimal_text(m),
    ensures
        n == m,
{
    text::law_numerals_are_read_back(n);
    text::law_numerals_are_read_back(m);
}

/// Behind a numeral a dash tells where it ends.
#[verifier::rlimit(40)]
proof fn lemma_split_at_dash(n: nat, m: nat, s: Seq<char>, t: Seq<char>)
    requires
        decimal_text(n) + "-"@ + s == decimal_text(m) + "-"@ + t,
    ensures
        n == m,
        s == t,
{
    reveal_strlit("-");
    text::law_numerals_are_read_back(n);
    text::law_numerals_are_read_back(m);
    let a = decimal_text(n);
    let b = decimal_text(m);
    let x = a + "-"@ + s;
    let y = b + "-"@ + t;
    if a.len() < b.len() {
        assert(x[a.len() as int] == '-');
        assert(y[a.len() as int] == b[a.len() as int]);
    }
    if b.len() < a.len() {
        assert(y[b.len() as int] == '-');
        assert(x[b.len() as int] == a[b.len() as int]);
    }
    assert forall|i: int| 0 <= i < a.len() implies a[i] == b[i] by {
        assert(x[i] == a[i] && y[i] == b[i]);
    }
    assert(a =~= b);
    lemma_equal_numerals(n, m);
    assert(x.len() == a.len() + 1 + s.len());
    assert(y.len() == b.len() + 1 + t.len());
    assert forall|i: int| 0 <= i < s.len() implies s[i] == t[i] by {
        assert(x[a.len() + 1 + i] == s[i]);
        assert(y[b.len() + 1 + i] == t[i]);
    }
    assert(s =~= t);
}

proof fn lemma_same_head(head: Seq<char>, s: Seq<char>, t: Seq<char>)
    requires
        head + s == head + t,
    ensures
        s == t,
{
    assert((head + s).skip(head.len() as int) =~= s);
    assert((head + t).skip(head.len() as int) =~= t);
}

proof fn lemma_regroup(head: Seq<char>, a: Seq<char>, d: Seq<char>, b: Seq<char>, c: Seq<char>)
    ensures
        head + a + d + b + d + c == head + (a + d + (b + d + c)),
{
    assert(head + a + d + b + d + c =~= head + (a + d + (b + d + c)));
}

/// Two relays have the label of one subnet exactly if they lie in one, and a relay
/// with a long address has none.
#[verifier::rlimit(40)]
pub proof fn law_labels_of_subnets(a: RelayInfo, b: RelayInfo, prefix_len: u8)
    requires
        prefix_len <= 32,
    ensures
        a.address is V4 && b.address is V4 ==> (subnet_label(prefix_len)(a) == subnet_label(
            prefix_len,
        )(b) <==> same_subnet(a.address, b.address, prefix_len)),
        subnet_label(prefix_len)(a) is None <==> a.address is V6,
{
    if let (IpAddr::V4(x), IpAddr::V4(y)) = (a.address, b.address) {
        law_what_a_subnet_holds(x, x, prefix_len);
        law_what_a_subnet_holds(y, y, prefix_len);
        vstd::arithmetic::power2::lemma_pow2_pos((32 - prefix_len) as nat);
        let size = pow2((32 - prefix_len) as nat) as int;
        assert(subnet_of(x, prefix_len) >= 0 && subnet_of(y, prefix_len) >= 0)
            by (nonlinear_arith)
            requires
                subnet_of(x, prefix_len) == x as int / size * size,
                subnet_of(y, prefix_len) == y as int / size * size,
                size > 0,
        {
            assert(x as int / size >= 0);
            assert(y as int / size >= 0);
        }
        let n = subnet_of(x, prefix_len) as nat;
        let m = subnet_of(y, prefix_len) as nat;
        let head = "subnet-"@;
        let tail = "/"@ + decimal_text(prefix_len as nat);
        let s = head + decimal_text(n) + "/"@ + decimal_text(prefix_len as nat);
        let t = head + decimal_text(m) + "/"@ + decimal_text(prefix_len as nat);
        assert(s =~= head + decimal_text(n) + tail);
        assert(t =~= head + decimal_text(m) + tail);
        if s == t {
            let p = decimal_text(n);
            let q = decimal_text(m);
            assert(p.len() == q.len());
            assert forall|i: int| 0 <= i < p.len() implies p[i] == q[i] by {
                assert(s[head.len() + i] == p[i]);
                assert(t[head.len() + i] == q[i]);
            }
            assert(p =~= q);
            lemma_equal_numerals(n, m);
        }
    }
}

/// Two relays have one pattern of behavior exactly if they have the same bandwidth
/// in whole megabytes per second and nicknames and fingerprints of the same lengths.
#[verifier::rlimit(40)]
pub proof fn law_labels_of_behavior(a: RelayInfo, b: RelayInfo)
    ensures
        behavior_label()(a) == behavior_label()(b) <==> a.bandwidth / 1_000_000 == b.bandwidth
            / 1_000_000 && encode_utf8(a.nickname@).len() == encode_utf8(b.nickname@).len()
            && encode_utf8(a.fingerprint@).len() == encode_utf8(b.fingerprint@).len(),
{
    let head = "behavior-"@;
    let (a1, b1) = ((a.bandwidth / 1_000_000) as nat, (b.bandwidth / 1_000_000) as nat);
    let (a2, b2) = (encode_utf8(a.nickname@).len(), encode_utf8(b.nickname@).len());
    let (a3, b3) = (encode_utf8(a.fingerprint@).len(), encode_utf8(b.fingerprint@).len());
    let s = head + decimal_text(a1) + "-"@ + decimal_text(a2) + "-"@ + decimal_text(a3);
    let t = head + decimal_text(b1) + "-"@ + decimal_text(b2) + "-"@ + decimal_text(b3);
    if s == t {
        let s2 = decimal_text(a2) + "-"@ + decimal_text(a3);
        let t2 = decimal_text(b2) + "-"@ + decimal_text(b3);
        let s1 = decimal_text(a1) + "-"@ + s2;
        let t1 = decimal_text(b1) + "-"@ + t2;
        lemma_regroup(head, decimal_text(a1), "-"@, decimal_text(a2), decimal_text(a3));
        lemma_regroup(head, decimal_text(b1), "-"@, decimal_text(b2), decimal_text(b3));
        lemma_same_head(head, s1, t1);
        lemma_split_at_dash(a1, b1, s2, t2);
        lemma_split_at_dash(a2, b2, decimal_text(a3), decimal_text(b3));
        lemma_equal_numerals(a3, b3);
    }
}

/// Bandwidth authority simulation
/// Verifies bandwidth claims
pub struct BandwidthAuthority {
    /// Measurement results
    pub measurements: NameMap<BandwidthMeasurement>,
}

/// What a relay claimed and what was measured.
#[derive(Debug, Clone, Copy, PartialEq, Eq, Structural)]
pub struct BandwidthMeasurement {
    /// The claim.
    pub claimed: u64,
    /// The measurement.
    pub measured: u64,
    /// When it was made.
    pub measurement_time: Instant,
}

impl BandwidthAuthority {
    /// Whether the records are sound.
    pub open spec fn wf(self) -> bool {
        self.measurements.wf()
    }

    /// Create new bandwidth authority
    pub fn new() -> (r: BandwidthAuthority)
        ensures
            r.wf(),
            r.measurements@ == Map::<Seq<char>, BandwidthMeasurement>::empty(),
    {
        BandwidthAuthority { measurements: NameMap::new() }
    }

    /// Measure relay bandwidth: a conservative estimate of half the claim
    pub fn measure(&mut self, identity: &str, claimed: u64, now: Instant) -> (r: u64)
        requires
            old(self).wf(),
        ensures
            final(self).wf(),
            r == claimed / 2,
            2 * r <= claimed < 2 * r + 2,
            final(self).measurements@ == old(self).measurements@.insert(
                identity@,
                BandwidthMeasurement { claimed, measured: r, measurement_time: now },
            ),
    {
        let measured: u64 = claimed / 2;
        self.measurements.insert(
            identity,
            BandwidthMeasurement { claimed, measured, measurement_time: now },
        );
        measured
    }

    /// Check for bandwidth inflation: whether the claim is more than `threshold`
    /// times what was measured, and at least one
    pub fn check_inflation(&self, identity: &str, threshold: Ratio) -> (r: bool)
        requires
            self.wf(),
        ensures
            r == (self.measurements@.dom().contains(identity@) && ({
                let m = self.measurements@[identity@];
                (Ratio {
                    num: m.claimed,
                    den: if m.measured < 1 {
                        1
                    } else {
                        m.measured
                    },
                }).above(threshold)
            })),
    {
        match self.measurements.get(identity) {
            Some(m) => {
                let measured: u64 = if m.measured < 1 {
                    1
                } else {
                    m.measured
                };
                Ratio::new(m.claimed, measured).exceeds(&threshold)
            },
            None => false,
        }
    }
}

/// Social trust network
/// Web-of-trust for relay operators
pub struct TrustNetwork {
    /// Trust edges
    pub edges: NameMap<StringHashSet>,
    /// Trust scores
    pub scores: NameMap<Reading>,
}

impl TrustNetwork {
    /// Whether the records are sound.
    pub open spec fn wf(self) -> bool {
        self.edges.wf() && self.scores.wf()
    }

    /// Whether `from` trusts `to`.
    pub open spec fn trusts(self, from: Seq<char>, to: Seq<char>) -> bool {
        self.edges@.dom().contains(from) && self.edges@[from]@.contains(to)
    }

    /// Those who trust `to`.
    pub open spec fn trusters(self, to: Seq<char>) -> Set<Seq<char>> {
        self.edges@.dom().filter(|from: Seq<char>| self.edges@[from]@.contains(to))
    }

    /// Create new trust network
    pub fn new() -> (r: TrustNetwork)
        ensures
            r.wf(),
            r.edges@ == Map::<Seq<char>, StringHashSet>::empty(),
            r.scores@ == Map::<Seq<char>, Reading>::empty(),
    {
        TrustNetwork { edges: NameMap::new(), scores: NameMap::new() }
    }

    /// Add trust edge
    pub fn add_trust(&mut self, from: &str, to: &str)
        requires
            old(self).wf(),
        ensures
            final(self).wf(),
            final(self).scores == old(self).scores,
            final(self).edges@.dom() == old(self).edges@.dom().insert(from@),
            forall|a: Seq<char>, b: Seq<char>| #[trigger]
                final(self).trusts(a, b) <==> old(self).trusts(a, b) || (a == from@ && b == to@),
    {
        let mut set = match self.edges.remove(from) {
            Some(set) => set,
            None => StringHashSet::new(),
        };
        set.insert(to.to_owned());
        self.edges.insert(from, set);
        assert(self.edges@.dom() =~= old(self).edges@.dom().insert(from@));
    }

    /// Calculate trust score: the share of those who trust anybody that trust
    /// this one
    pub fn calculate_trust(&self, identity: &str) -> (r: Ratio)
        requires
            self.wf(),
        ensures
            r.num == self.trusters(identity@).len(),
            r.den == (if self.edges@.len() < 1 {
                1
            } else {
                self.edges@.len()
            }),
            r.num <= r.den,
    {
        let number: usize = self.edges.len();
        let ghost p = |from: Seq<char>| self.edges@[from]@.contains(identity@);
        let ghost mut met: Set<Seq<char>> = Set::empty();
        let mut incoming: usize = 0;
        let mut i: usize = 0;
        proof {
            self.edges.lemma_places();
            assert(met.filter(p) =~= Set::<Seq<char>>::empty());
        }
        while i < number
            invariant
                self.wf(),
                number == self.edges@.len(),
                i <= number,
                incoming <= i,
                p == (|from: Seq<char>| self.edges@[from]@.contains(identity@)),
                met.finite(),
                incoming == met.filter(p).len(),
                forall|n: Seq<char>| #[trigger]
                    met.contains(n) <==> exists|k: int|
                        0 <= k < i && #[trigger] self.edges.name_at(k) == n,
                forall|k: int, j: int|
                    0 <= k < j < self.edges@.len() ==> #[trigger] self.edges.name_at(k)
                        != #[trigger] self.edges.name_at(j),
            decreases number - i,
        {
            let (name, set) = self.edges.entry(i);
            let ghost before = met;
            proof {
                met = met.insert(name@);
                assert(!before.contains(name@)) by {
                    if before.contains(name@) {
                        let k = choose|k: int| 0 <= k < i && #[trigger] self.edges.name_at(k)
                            == name@;
                        assert(self.edges.name_at(k) != self.edges.name_at(i as int));
                    }
                }
                assert forall|n: Seq<char>| #[trigger] met.contains(n) <==> exists|k: int|
                    0 <= k < i + 1 && #[trigger] self.edges.name_at(k) == n by {
                    assert(self.edges.name_at(i as int) == name@);
                    if before.contains(n) {
                        let k = choose|k: int| 0 <= k < i && #[trigger] self.edges.name_at(k) == n;
                        assert(self.edges.name_at(k) == n);
                    }
                }
            }
            if set.contains(identity) {
                incoming = incoming + 1;
                proof {
                    assert(met.filter(p) =~= before.filter(p).insert(name@));
                    assert(before.filter(p).finite());
                }
            } else {
                assert(met.filter(p) =~= before.filter(p));
            }
            i = i + 1;
        }
        proof {
            self.edges.lemma_places();
            assert forall|n: Seq<char>| met.contains(n) <==> self.edges@.dom().contains(n) by {
                if self.edges@.dom().contains(n) {
                    let k = choose|k: int|
                        0 <= k < self.edges@.len() && #[trigger] self.edges.name_at(k) == n;
                    assert(self.edges.name_at(k) == n);
                }
            }
            assert(met =~= self.edges@.dom());
        }
        let all: usize = if number < 1 {
            1
        } else {
            number
        };
        Ratio::new(incoming as u64, all as u64)
    }
}

/// Those who trust somebody are those with an edge to them.
pub proof fn law_who_trusts(network: TrustNetwork, from: Seq<char>, to: Seq<char>)
    ensures
        network.trusters(to).contains(from) <==> network.trusts(from, to),
{
}

} // verus!
