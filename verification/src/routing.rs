//! The routing manager: all protections behind one door.

use crate::address::IpAddr;
use crate::bgp_protection::{view_of, BgpGuard, BgpThreat, ThreatView};
use crate::circuit::health::{default_health_config, HealthMonitorConfig};
use crate::circuit::pool::{
    default_pool_config, CircuitBuilder, CircuitId, CircuitPoolConfig, PoolError,
};
use crate::circuit::rotation::{default_rotation_policy, RotationPolicy};
use crate::dns_protection::{resolves, DnsGuard, Resolution};
use crate::guard_management::GuardManager;
use crate::names::texts;
use crate::resource_protection::{pow_digest, ResourceGuard};
use crate::sybil_defense::SybilShield;
use crate::text;
use crate::text::decimal_text;
use crate::time::Instant;
use crate::webrtc_protection::WebrtcGuard;
use crate::{
    CircuitAllocation, GuardInfo, Path, ProofOfWork, RoutingConfig, RoutingError, RoutingFailure,
    WebrtcConfig,
};
use vstd::prelude::*;
use vstd::string::*;

verus! {

/// Extended routing configuration with circuit management
#[derive(Debug, Clone, Copy, PartialEq, Eq, Structural)]
pub struct ExtendedRoutingConfig {
    /// Base routing configuration
    pub routing: RoutingConfig,
    /// Circuit pool configuration
    pub circuit_pool: CircuitPoolConfig,
    /// Health monitor configuration
    pub health_monitor: HealthMonitorConfig,
    /// Rotation policy
    pub rotation_policy: RotationPolicy,
    /// Enable circuit management
    pub enable_circuit_management: bool,
}

impl Default for ExtendedRoutingConfig {
    fn default() -> (r: ExtendedRoutingConfig)
        ensures
            r.routing.bgp_protection && r.routing.guard_management && r.routing.resource_protection
                && r.routing.dns_protection && r.routing.webrtc_protection
                && r.routing.sybil_defense,
            r.routing.security_level == crate::SecurityLevel::Enhanced,
            r.circuit_pool == default_pool_config(),
            r.health_monitor == default_health_config(),
            r.rotation_policy == default_rotation_policy(),
            r.enable_circuit_management,
    {
        ExtendedRoutingConfig {
            routing: RoutingConfig::default(),
            circuit_pool: CircuitPoolConfig::default(),
            health_monitor: HealthMonitorConfig::default(),
            rotation_policy: RotationPolicy::default(),
            enable_circuit_management: true,
        }
    }
}

/// Main routing manager
pub struct RoutingManager {
    /// Configuration
    pub config: RoutingConfig,
    /// Protection against routing attacks
    pub bgp_guard: Option<BgpGuard>,
    /// Selection of guards
    pub guard_manager: Option<GuardManager>,
    /// Protection against resource exhaustion
    pub resource_guard: Option<ResourceGuard>,
    /// Protection of DNS queries
    pub dns_guard: Option<DnsGuard>,
    /// Protection against WebRTC leaks
    pub webrtc_guard: Option<WebrtcGuard>,
    /// Protection against Sybil attacks
    pub sybil_shield: Option<SybilShield>,
}

/// The protections that have work to do in the background.
#[derive(Debug, Clone, Copy, PartialEq, Eq, Structural)]
pub enum Protection {
    /// Watch for BGP anomalies.
    Bgp,
    /// Rotate guards.
    Guards,
    /// Watch the memory.
    Resources,
    /// Clean the DNS cache.
    Dns,
    /// Scan for Sybils.
    Sybil,
}

impl RoutingManager {
    /// Whether every protection is sound.
    pub open spec fn wf(self) -> bool {
        &&& self.bgp_guard matches Some(g) ==> g.wf()
        &&& self.guard_manager matches Some(m) ==> m.wf()
        &&& self.resource_guard matches Some(g) ==> g.wf()
        &&& self.dns_guard matches Some(g) ==> g.wf()
        &&& self.sybil_shield matches Some(s) ==> s.wf()
    }

    /// Create new routing manager: it has the protections that are switched on
    pub fn new(config: RoutingConfig, now: Instant) -> (r: RoutingManager)
        ensures
            r.wf(),
            r.config == config,
            match r.bgp_guard {
                Some(g) => config.bgp_protection && g.is_new(config, now),
                None => !config.bgp_protection,
            },
            match r.guard_manager {
                Some(m) => config.guard_management && m.is_new(config),
                None => !config.guard_management,
            },
            match r.resource_guard {
                Some(g) => config.resource_protection && g.is_new(
                    config,
                    crate::resource_protection::DEFAULT_POW_DIFFICULTY,
                ),
                None => !config.resource_protection,
            },
            match r.dns_guard {
                Some(g) => config.dns_protection && g.is_new(config),
                None => !config.dns_protection,
            },
            match r.webrtc_guard {
                Some(g) => config.webrtc_protection && g.is_new(config),
                None => !config.webrtc_protection,
            },
            match r.sybil_shield {
                Some(s) => config.sybil_defense && s.is_new(config),
                None => !config.sybil_defense,
            },
    {
        let guard_manager = if config.guard_management {
            let manager = GuardManager::new(config);
            proof {
                assert(manager.layer(crate::GuardLayer::First).len() == 0);
                assert(manager.layer(crate::GuardLayer::Second).len() == 0);
                assert(manager.layer(crate::GuardLayer::Third).len() == 0);
            }
            Some(manager)
        } else {
            None
        };
        RoutingManager {
            config,
            bgp_guard: if config.bgp_protection {
                Some(BgpGuard::new(config, now))
            } else {
                None
            },
            guard_manager,
            resource_guard: if config.resource_protection {
                Some(ResourceGuard::new(config))
            } else {
                None
            },
            dns_guard: if config.dns_protection {
                Some(DnsGuard::new(config))
            } else {
                None
            },
            webrtc_guard: if config.webrtc_protection {
                Some(WebrtcGuard::new(config))
            } else {
                None
            },
            sybil_shield: if config.sybil_defense {
                Some(SybilShield::new(config))
            } else {
                None
            },
        }
    }

    /// The background work to start, in order: that of each protection that is
    /// switched on and there.
    pub open spec fn background_work(self) -> Seq<Protection> {
        (if self.config.bgp_protection && self.bgp_guard is Some {
            seq![Protection::Bgp]
        } else {
            Seq::empty()
        }) + (if self.config.guard_management && self.guard_manager is Some {
            seq![Protection::Guards]
        } else {
            Seq::empty()
        }) + (if self.config.resource_protection && self.resource_guard is Some {
            seq![Protection::Resources]
        } else {
            Seq::empty()
        }) + (if self.config.dns_protection && self.dns_guard is Some {
            seq![Protection::Dns]
        } else {
            Seq::empty()
        }) + (if self.config.sybil_defense && self.sybil_shield is Some {
            seq![Protection::Sybil]
        } else {
            Seq::empty()
        })
    }

    /// Initialize all routing protections: the interfaces are blocked for
    /// WebRTC, and the background work is what the caller is to start
    pub fn initialize(&mut self) -> (r: Result<Vec<Protection>, RoutingError>)
        requires
            old(self).wf(),
        ensures
            r matches Ok(work) && work@ == old(self).background_work(),
            final(self).wf(),
            final(self).config == old(self).config,
            final(self).bgp_guard == old(self).bgp_guard,
            final(self).guard_manager == old(self).guard_manager,
            final(self).resource_guard == old(self).resource_guard,
            final(self).dns_guard == old(self).dns_guard,
            final(self).sybil_shield == old(self).sybil_shield,
            match old(self).webrtc_guard {
                Some(guard) => if old(self).config.webrtc_protection {
                    final(self).webrtc_guard matches Some(after) && guard.initialized(after)
                } else {
                    final(self).webrtc_guard == old(self).webrtc_guard
                },
                None => final(self).webrtc_guard is None,
            },
    {
        let mut work: Vec<Protection> = Vec::new();
        if self.config.bgp_protection && self.bgp_guard.is_some() {
            work.push(Protection::Bgp);
        }
        if self.config.guard_management && self.guard_manager.is_some() {
            work.push(Protection::Guards);
        }
        if self.config.resource_protection && self.resource_guard.is_some() {
            work.push(Protection::Resources);
        }
        if self.config.dns_protection && self.dns_guard.is_some() {
            work.push(Protection::Dns);
        }
        if self.config.webrtc_protection {
            match self.webrtc_guard.take() {
                Some(mut guard) => {
                    match guard.initialize() {
                        Ok(_) => {},
                        Err(e) => {
                            self.webrtc_guard = Some(guard);
                            return Err(e);
                        },
                    }
                    self.webrtc_guard = Some(guard);
                },
                None => {},
            }
        }
        if self.config.sybil_defense && self.sybil_shield.is_some() {
            work.push(Protection::Sybil);
        }
        assert(work@ =~= old(self).background_work());
        Ok(work)
    }

    /// Whether a threat is what stands on a route; where there is none, that
    /// nothing does.
    pub open spec fn route_judged(self, found: Option<ThreatView>) -> bool {
        match self.bgp_guard {
            Some(g) => if g.config.bgp_protection {
                g.judges(true, Seq::empty(), found)
            } else {
                found is None
            },
            None => found is None,
        }
    }

    /// Whether a guard passes the Sybil shield; without a shield every one does.
    pub open spec fn trusted(self, guard: GuardInfo) -> bool {
        self.sybil_shield matches Some(s) ==> s.passes(guard.identity@)
    }

    /// Whether a path is the outcome of a selection of guards: it fails at the
    /// first guard that does not pass.
    pub open spec fn leads_through(
        self,
        guards: Seq<GuardInfo>,
        destination: IpAddr,
        r: Result<Path, RoutingError>,
    ) -> bool {
        if forall|i: int| 0 <= i < guards.len() ==> self.trusted(#[trigger] guards[i]) {
            r matches Ok(path) && path.guards@ == guards && path.destination == destination
        } else {
            exists|i: int|
                0 <= i < guards.len() && !self.trusted(#[trigger] guards[i]) && (forall|k: int|
                    0 <= k < i ==> self.trusted(#[trigger] guards[k])) && (r matches Err(e) && e@
                    == RoutingFailure::SybilDetected(guards[i].identity@))
        }
    }

    /// Whether a path is the outcome once no threat stands on the route: guards
    /// are selected, and then have to pass.
    pub open spec fn paths(self, destination: IpAddr, r: Result<Path, RoutingError>) -> bool {
        match self.guard_manager {
            Some(m) => exists|first: u64, second: u64, third: u64, s: Result<
                Vec<GuardInfo>,
                RoutingError,
            >| #[trigger]
                m.selects(first, second, third, s) && match s {
                    Ok(guards) => self.leads_through(guards@, destination, r),
                    Err(e) => r == Err::<Path, RoutingError>(e),
                },
            None => self.leads_through(Seq::empty(), destination, r),
        }
    }

    /// Select secure path. `prefix` is the destination in text, and `measure` puts
    /// the share or the time that a threat speaks of into words.
    pub fn select_path<F: Fn(&BgpThreat) -> String>(
        &self,
        destination: &IpAddr,
        prefix: &str,
        measure: F,
        now: Instant,
    ) -> (r: Result<Path, RoutingError>)
        requires
            self.wf(),
            self.guard_manager matches Some(m) ==> m.selectable(),
            forall|t: &BgpThreat| call_requires(measure, (t,)),
        ensures
            exists|found: Option<BgpThreat>|
                self.route_judged(#[trigger] view_of(found)) && match found {
                    Some(threat) => exists|words: String| #[trigger]
                        call_ensures(measure, (&threat,), words) && (r matches Err(e) && e@
                            == RoutingFailure::BgpThreatDetected(threat@.words(words@))),
                    None => self.paths(*destination, r),
                },
    {
        match &self.bgp_guard {
            Some(guard) => {
                match guard.check_route(destination, prefix, now) {
                    Ok(Some(threat)) => {
                        let words = measure(&threat);
                        let text = threat.describe(words.as_str());
                        proof {
                            assert(self.route_judged(view_of(Some(threat))));
                            assert(call_ensures(measure, (&threat,), words));
                        }
                        return Err(RoutingError::BgpThreatDetected(text));
                    },
                    Ok(None) => {
                        assert(self.route_judged(view_of(None)));
                    },
                    Err(e) => {
                        return Err(e);
                    },
                }
            },
            None => {
                assert(self.route_judged(view_of(None)));
            },
        }
        match &self.guard_manager {
            Some(manager) => {
                let selected = manager.select_guards();
                match selected {
                    Ok(guards) => {
                        let r = self.admit_guards(guards, destination);
                        assert(self.paths(*destination, r));
                        r
                    },
                    Err(e) => {
                        let r: Result<Path, RoutingError> = Err(e);
                        assert(self.paths(*destination, r));
                        r
                    },
                }
            },
            None => self.admit_guards(Vec::new(), destination),
        }
    }

    /// The path through guards that have been selected, if all of them pass
    pub fn admit_guards(&self, guards: Vec<GuardInfo>, destination: &IpAddr) -> (r: Result<
        Path,
        RoutingError,
    >)
        requires
            self.wf(),
        ensures
            self.leads_through(guards@, *destination, r),
    {
        match &self.sybil_shield {
            Some(shield) => {
                let mut i: usize = 0;
                while i < guards.len()
                    invariant
                        self.wf(),
                        self.sybil_shield == Some(*shield),
                        i <= guards@.len(),
                        forall|k: int| 0 <= k < i ==> self.trusted(#[trigger] guards@[k]),
                    decreases guards@.len() - i,
                {
                    match shield.verify_relay(guards[i].identity.as_str()) {
                        Ok(true) => {},
                        Ok(false) => {
                            assert(!self.trusted(guards@[i as int]));
                            return Err(RoutingError::SybilDetected(guards[i].identity.clone()));
                        },
                        Err(e) => {
                            return Err(e);
                        },
                    }
                    i = i + 1;
                }
            },
            None => {},
        }
        Ok(Path { guards, destination: *destination })
    }

    /// Protect DNS query
    pub fn protect_dns(&self, query: &str, now: Instant) -> (r: Resolution)
        requires
            self.wf(),
        ensures
            match self.dns_guard {
                Some(guard) if self.config.dns_protection => exists|t: u16| #[trigger]
                    resolves(guard, query@, query.spec_bytes(), t, now, r),
                _ => r matches Resolution::Refused(e) && e@
                    == RoutingFailure::DnsProtectionDisabled,
            },
    {
        match &self.dns_guard {
            Some(guard) if self.config.dns_protection => guard.resolve_secure(query, now),
            _ => Resolution::Refused(RoutingError::DnsProtectionDisabled),
        }
    }

    /// Protect WebRTC
    pub fn protect_webrtc(&self) -> (r: Result<WebrtcConfig, RoutingError>)
        ensures
            match self.webrtc_guard {
                Some(guard) if self.config.webrtc_protection => r matches Ok(c) && c.stun_servers@
                    == guard.stun_config.servers@ && c.turn_servers@ == guard.turn_config.servers@
                    && c.force_relay == guard.turn_config.force_relay && c.block_local_ips
                    == guard.hides_locals(),
                _ => r matches Err(e) && e@ == RoutingFailure::WebrtcProtectionDisabled,
            },
    {
        match &self.webrtc_guard {
            Some(guard) if self.config.webrtc_protection => guard.get_secure_config(),
            _ => Err(RoutingError::WebrtcProtectionDisabled),
        }
    }

    /// Allocate circuit resources
    pub fn allocate_circuit(&mut self, pow: ProofOfWork, now: Instant) -> (r: Result<
        CircuitAllocation,
        RoutingError,
    >)
        requires
            old(self).wf(),
        ensures
            final(self).wf(),
            final(self).config == old(self).config,
            final(self).bgp_guard == old(self).bgp_guard,
            final(self).guard_manager == old(self).guard_manager,
            final(self).dns_guard == old(self).dns_guard,
            final(self).webrtc_guard == old(self).webrtc_guard,
            final(self).sybil_shield == old(self).sybil_shield,
            match old(self).resource_guard {
                Some(guard) if old(
                    self,
                ).config.resource_protection => final(self).resource_guard matches Some(after)
                    && exists|id: u32|
                    ResourceGuard::allocates(
                        guard,
                        after,
                        pow,
                        pow_digest(pow.circuit_id, pow.nonce),
                        id,
                        now,
                        r,
                    ),
                _ => final(self).resource_guard == old(self).resource_guard && (r matches Err(e)
                    && e@ == RoutingFailure::ResourceProtectionDisabled),
            },
    {
        if !self.config.resource_protection {
            return Err(RoutingError::ResourceProtectionDisabled);
        }
        match self.resource_guard.take() {
            Some(mut guard) => {
                let r = guard.allocate(pow, now);
                self.resource_guard = Some(guard);
                r
            },
            None => Err(RoutingError::ResourceProtectionDisabled),
        }
    }
}

/// A path that was selected leads through guards that all pass the Sybil
/// shield.
pub proof fn law_paths_are_trusted(
    manager: RoutingManager,
    guards: Seq<GuardInfo>,
    destination: IpAddr,
    r: Result<Path, RoutingError>,
    i: int,
)
    requires
        manager.leads_through(guards, destination, r),
        r matches Ok(path) && 0 <= i < path.guards@.len(),
    ensures
        r matches Ok(path) && manager.trusted(path.guards@[i]),
{
}

/// A selection of guards makes a path exactly if all of them pass, and the path leads
/// through just these to the destination; else the error names the first that does
/// not.
pub proof fn law_one_bad_guard_spoils_the_path(
    manager: RoutingManager,
    guards: Seq<GuardInfo>,
    destination: IpAddr,
    r: Result<Path, RoutingError>,
    i: int,
)
    requires
        manager.leads_through(guards, destination, r),
        0 <= i <= guards.len(),
        forall|k: int| 0 <= k < i ==> manager.trusted(#[trigger] guards[k]),
    ensures
        i == guards.len() ==> (r matches Ok(path) && path.guards@ == guards && path.destination
            == destination),
        i < guards.len() && !manager.trusted(guards[i]) ==> (r matches Err(e) && e@
            == RoutingFailure::SybilDetected(guards[i].identity@)),
{
    if i < guards.len() && !manager.trusted(guards[i]) {
        let j = choose|j: int|
            0 <= j < guards.len() && !manager.trusted(#[trigger] guards[j]) && (forall|k: int|
                0 <= k < j ==> manager.trusted(#[trigger] guards[k])) && (r matches Err(e) && e@
                == RoutingFailure::SybilDetected(guards[j].identity@));
        assert(manager.trusted(guards[i]) || j <= i);
        assert(j == i);
    }
}

/// A path that was found leads to its destination through guards that all pass, no
/// more than there are layers for the level of security; and where there is no guard
/// manager it leads there directly.
#[verifier::rlimit(40)]
pub proof fn law_paths_that_are_found(
    manager: RoutingManager,
    destination: IpAddr,
    r: Result<Path, RoutingError>,
    i: int,
)
    requires
        manager.paths(destination, r),
        r is Ok,
    ensures
        r matches Ok(path) && path.destination == destination,
        r matches Ok(path) && (0 <= i < path.guards@.len() ==> manager.trusted(path.guards@[i])),
        manager.guard_manager matches Some(m) ==> (r matches Ok(path) && 1 <= path.guards@.len()
            <= m.depth()),
        manager.guard_manager is None ==> (r matches Ok(path) && path.guards@.len() == 0),
{
}

/// Without a BGP guard, or with one that is switched off, no threat is found; with one
/// that is on, what it finds counts.
pub proof fn law_who_judges_a_route(manager: RoutingManager, found: Option<ThreatView>)
    ensures
        manager.bgp_guard is None ==> (manager.route_judged(found) <==> found is None),
        manager.bgp_guard matches Some(g) ==> (!g.config.bgp_protection ==> (manager.route_judged(
            found,
        ) <==> found is None)),
        manager.bgp_guard matches Some(g) ==> (g.config.bgp_protection ==> manager.route_judged(
            found,
        ) == g.heuristics_find(found)),
{
}

/// Where the work of a protection stands among all.
pub open spec fn place_of(protection: Protection) -> int {
    match protection {
        Protection::Bgp => 1,
        Protection::Guards => 2,
        Protection::Resources => 3,
        Protection::Dns => 4,
        Protection::Sybil => 5,
    }
}

/// The work of a protection is started exactly if it is switched on and there, and
/// once; BGP comes before guards, guards before resources, resources before DNS and
/// DNS before Sybils.
#[verifier::rlimit(40)]
pub proof fn law_background_work(manager: RoutingManager)
    ensures
        ({
            let work = manager.background_work();
            &&& work.contains(Protection::Bgp) <==> manager.config.bgp_protection
                && manager.bgp_guard is Some
            &&& work.contains(Protection::Guards) <==> manager.config.guard_management
                && manager.guard_manager is Some
            &&& work.contains(Protection::Resources) <==> manager.config.resource_protection
                && manager.resource_guard is Some
            &&& work.contains(Protection::Dns) <==> manager.config.dns_protection
                && manager.dns_guard is Some
            &&& work.contains(Protection::Sybil) <==> manager.config.sybil_defense
                && manager.sybil_shield is Some
            &&& forall|i: int, j: int|
                0 <= i < j < work.len() ==> place_of(#[trigger] work[i]) < place_of(
                    #[trigger] work[j],
                )
        }),
{
    let bgp = manager.config.bgp_protection && manager.bgp_guard is Some;
    let guards = manager.config.guard_management && manager.guard_manager is Some;
    let resources = manager.config.resource_protection && manager.resource_guard is Some;
    let dns = manager.config.dns_protection && manager.dns_guard is Some;
    let sybil = manager.config.sybil_defense && manager.sybil_shield is Some;
    let none = Seq::<Protection>::empty();
    let a = one_if(bgp, Protection::Bgp);
    assert(in_order(none, 0)) by {
        reveal(in_order);
    }
    lemma_next_work(none, bgp, Protection::Bgp, 0);
    assert(none + a =~= a);
    let b = a + one_if(guards, Protection::Guards);
    lemma_next_work(a, guards, Protection::Guards, 1);
    let c = b + one_if(resources, Protection::Resources);
    lemma_next_work(b, resources, Protection::Resources, 2);
    let d = c + one_if(dns, Protection::Dns);
    lemma_next_work(c, dns, Protection::Dns, 3);
    lemma_next_work(d, sybil, Protection::Sybil, 4);
    reveal(in_order);
}

spec fn one_if(on: bool, protection: Protection) -> Seq<Protection> {
    if on {
        seq![protection]
    } else {
        Seq::empty()
    }
}

/// Whether work is in order and ends at a place.
#[verifier::opaque]
spec fn in_order(work: Seq<Protection>, end: int) -> bool {
    &&& forall|i: int| 0 <= i < work.len() ==> place_of(#[trigger] work[i]) <= end
    &&& forall|i: int, j: int|
        0 <= i < j < work.len() ==> place_of(#[trigger] work[i]) < place_of(#[trigger] work[j])
}

proof fn lemma_next_work(work: Seq<Protection>, on: bool, next: Protection, end: int)
    requires
        in_order(work, end),
        end < place_of(next),
    ensures
        in_order(work + one_if(on, next), place_of(next)),
        forall|p: Protection| #[trigger]
            (work + one_if(on, next)).contains(p) <==> work.contains(p) || (on && p == next),
{
    reveal(in_order);
    let more = work + one_if(on, next);
    assert forall|p: Protection| #[trigger] more.contains(p) <==> work.contains(p) || (on && p
        == next) by {
        if work.contains(p) {
            let i = choose|i: int| 0 <= i < work.len() && work[i] == p;
            assert(more[i] == p);
        }
        if on && p == next {
            assert(more[work.len() as int] == p);
        }
    }
}

/// Default circuit builder implementation using the routing layer
#[derive(Debug, Clone, Copy, PartialEq, Eq, Structural)]
pub struct RoutingCircuitBuilder {}

/// The relays of a circuit of the default builder.
pub open spec fn mock_path(circuit_id: u64) -> Seq<Seq<char>> {
    seq![
        "guard_"@ + decimal_text(circuit_id as nat) + "_entry"@,
        "middle_"@ + decimal_text(circuit_id as nat) + "_relay"@,
        "exit_"@ + decimal_text(circuit_id as nat) + "_relay"@,
    ]
}

fn relay_name(head: &str, circuit_id: u64, tail: &str) -> (r: String)
    ensures
        r@ == head@ + decimal_text(circuit_id as nat) + tail@,
{
    let front = text::joined(head, text::decimal(circuit_id).as_str());
    text::joined(front.as_str(), tail)
}

impl RoutingCircuitBuilder {
    /// Create a new circuit builder
    pub fn new() -> (r: RoutingCircuitBuilder)
        ensures
            r == (RoutingCircuitBuilder {}),
    {
        RoutingCircuitBuilder {  }
    }
}

impl Default for RoutingCircuitBuilder {
    fn default() -> (r: RoutingCircuitBuilder)
        ensures
            r == (RoutingCircuitBuilder {}),
    {
        Self::new()
    }
}

impl CircuitBuilder for RoutingCircuitBuilder {
    fn build_circuit(&self, circuit_id: CircuitId) -> (r: Result<Vec<String>, PoolError>)
        ensures
            r matches Ok(path) && texts(path@) == mock_path(circuit_id),
    {
        let mut path: Vec<String> = Vec::new();
        path.push(relay_name("guard_", circuit_id, "_entry"));
        path.push(relay_name("middle_", circuit_id, "_relay"));
        path.push(relay_name("exit_", circuit_id, "_relay"));
        assert(texts(path@) =~= mock_path(circuit_id));
        Ok(path)
    }

    fn test_circuit(&self, _path: &Vec<String>) -> (r: Result<bool, PoolError>)
        ensures
            r matches Ok(works) && works,
    {
        Ok(true)
    }

    fn close_circuit(&self, _circuit_id: CircuitId) -> (r: Result<(), PoolError>)
        ensures
            r is Ok,
    {
        Ok(())
    }
}

} // verus!
