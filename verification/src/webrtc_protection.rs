//! WebRTC Protection Module
//!
//! Countermeasures against WebRTC IP leaks: STUN/TURN configuration, ICE
//! candidate filtering, and browser policy enforcement. The STUN messages are
//! those of RFC 5389.

use crate::address::IpAddr;
use crate::names::{copied, texts};
use crate::random;
use crate::text;
use crate::wire;
use crate::wire::big_endian;
use crate::{RoutingConfig, RoutingError, WebrtcConfig};
use vstd::hash_set::StringHashSet;
use vstd::prelude::*;
use vstd::string::*;

verus! {

/// WebRTC guard for preventing IP leaks
pub struct WebrtcGuard {
    /// Routing configuration
    pub config: RoutingConfig,
    /// STUN server configuration
    pub stun_config: StunConfig,
    /// TURN server configuration
    pub turn_config: TurnConfig,
    /// ICE policy
    pub ice_policy: IcePolicy,
    /// Blocked interfaces
    pub blocked_interfaces: StringHashSet,
}

/// STUN server configuration
#[derive(Debug, Clone)]
pub struct StunConfig {
    /// VPN-provided STUN servers
    pub servers: Vec<String>,
    /// Block public STUN
    pub block_public: bool,
}

/// TURN server configuration
#[derive(Debug, Clone)]
pub struct TurnConfig {
    /// VPN-provided TURN servers
    pub servers: Vec<String>,
    /// Force TURN relay
    pub force_relay: bool,
    /// Authentication credentials
    pub credentials: TurnCredentials,
}

/// Credentials for a TURN server.
#[derive(Debug, Clone)]
pub struct TurnCredentials {
    /// Name of the user.
    pub username: String,
    /// Secret of the user.
    pub credential: String,
}

/// ICE (Interactive Connectivity Establishment) policy
#[derive(Debug, Clone, Copy, PartialEq, Eq, Structural)]
pub enum IcePolicy {
    /// Allow all candidates
    All,
    /// Relay only (force TURN)
    RelayOnly,
    /// No host candidates
    NoHost,
    /// Default address only
    DefaultAddressOnly,
}

impl IcePolicy {
    /// Whether the policy lets a candidate of type `kind` with address `ip`
    /// through.
    pub open spec fn admits(self, kind: CandidateType, ip: IpAddr) -> bool {
        match self {
            IcePolicy::All => true,
            IcePolicy::RelayOnly => kind == CandidateType::Relay,
            IcePolicy::NoHost => kind != CandidateType::Host,
            IcePolicy::DefaultAddressOnly => in_tunnel_range(ip),
        }
    }
}

impl WebrtcGuard {
    /// The candidates that get through: those that the ICE policy admits, on an
    /// interface that is not blocked.
    pub open spec fn passes(self, c: IceCandidate) -> bool {
        self.ice_policy.admits(c.candidate_type, c.ip) && !self.blocked_interfaces@.contains(
            c.interface@,
        )
    }

    /// Whether the ICE policy keeps local addresses back.
    pub open spec fn hides_locals(self) -> bool {
        self.ice_policy == IcePolicy::NoHost || self.ice_policy == IcePolicy::RelayOnly
    }

    /// Whether the guard is new: it lets only relays through and blocks no interface
    /// yet.
    pub open spec fn is_new(self, config: RoutingConfig) -> bool {
        &&& self.config == config
        &&& texts(self.stun_config.servers@) == seq!["stun:vpn-provider.com:3478"@]
        &&& self.stun_config.block_public
        &&& texts(self.turn_config.servers@) == seq!["turn:vpn-provider.com:3478"@]
        &&& self.turn_config.force_relay
        &&& self.turn_config.credentials.username@ == "vpn-user"@
        &&& self.turn_config.credentials.credential@ == "vpn-pass"@
        &&& self.ice_policy == IcePolicy::RelayOnly
        &&& self.blocked_interfaces@ == Set::<Seq<char>>::empty()
    }

    /// Create new WebRTC guard
    pub fn new(config: RoutingConfig) -> (r: WebrtcGuard)
        ensures
            r.is_new(config),
    {
        let mut stun: Vec<String> = Vec::new();
        stun.push("stun:vpn-provider.com:3478".to_owned());
        let mut turn: Vec<String> = Vec::new();
        turn.push("turn:vpn-provider.com:3478".to_owned());
        assert(texts(stun@) =~= seq!["stun:vpn-provider.com:3478"@]);
        assert(texts(turn@) =~= seq!["turn:vpn-provider.com:3478"@]);
        WebrtcGuard {
            config,
            stun_config: StunConfig { servers: stun, block_public: true },
            turn_config: TurnConfig {
                servers: turn,
                force_relay: true,
                credentials: TurnCredentials {
                    username: "vpn-user".to_owned(),
                    credential: "vpn-pass".to_owned(),
                },
            },
            ice_policy: IcePolicy::RelayOnly,
            blocked_interfaces: StringHashSet::new(),
        }
    }

    /// Whether `after` differs from the guard in nothing but that it blocks the
    /// local interfaces as well.
    pub open spec fn initialized(self, after: WebrtcGuard) -> bool {
        &&& after.config == self.config
        &&& after.stun_config == self.stun_config
        &&& after.turn_config == self.turn_config
        &&& after.ice_policy == self.ice_policy
        &&& after.blocked_interfaces@ == self.blocked_interfaces@.insert("eth0"@).insert(
            "wlan0"@,
        ).insert("en0"@)
    }

    /// Initialize WebRTC protection: block the local interfaces.
    pub fn initialize(&mut self) -> (r: Result<(), RoutingError>)
        ensures
            r is Ok,
            old(self).initialized(*final(self)),
    {
        self.blocked_interfaces.insert("eth0".to_owned());
        self.blocked_interfaces.insert("wlan0".to_owned());
        self.blocked_interfaces.insert("en0".to_owned());
        Ok(())
    }

    /// Get secure WebRTC configuration
    pub fn get_secure_config(&self) -> (r: Result<WebrtcConfig, RoutingError>)
        ensures
            r matches Ok(c) && c.stun_servers@ == self.stun_config.servers@ && c.turn_servers@
                == self.turn_config.servers@ && c.force_relay == self.turn_config.force_relay
                && c.block_local_ips == self.hides_locals(),
    {
        Ok(
            WebrtcConfig {
                stun_servers: copied(&self.stun_config.servers),
                turn_servers: copied(&self.turn_config.servers),
                block_local_ips: self.ice_policy == IcePolicy::NoHost || self.ice_policy
                    == IcePolicy::RelayOnly,
                force_relay: self.turn_config.force_relay,
            },
        )
    }

    /// Whether one candidate gets through.
    fn admits(&self, c: &IceCandidate) -> (r: bool)
        ensures
            r == self.passes(*c),
    {
        let fits = match self.ice_policy {
            IcePolicy::All => true,
            IcePolicy::RelayOnly => c.candidate_type == CandidateType::Relay,
            IcePolicy::NoHost => c.candidate_type != CandidateType::Host,
            IcePolicy::DefaultAddressOnly => c.is_vpn_address(),
        };
        fits && !self.blocked_interfaces.contains(c.interface.as_str())
    }

    /// Filter ICE candidates: those that get through, in their order.
    pub fn filter_candidates(&self, candidates: Vec<IceCandidate>) -> (r: Vec<IceCandidate>)
        ensures
            r@ == candidates@.filter(|c: IceCandidate| self.passes(c)),
    {
        let ghost all = candidates@;
        let ghost pass = |c: IceCandidate| self.passes(c);
        let mut r: Vec<IceCandidate> = Vec::new();
        reveal(Seq::filter);
        assert(all.take(0).filter(pass) =~= Seq::<IceCandidate>::empty());
        for c in it: candidates
            invariant
                it.seq() == all,
                pass == (|c: IceCandidate| self.passes(c)),
                r@ == all.take(it.index()).filter(pass),
        {
            reveal(Seq::filter);
            assert(all.take(it.index() + 1).drop_last() =~= all.take(it.index()));
            if self.admits(&c) {
                r.push(c);
            }
        }
        assert(all.take(all.len() as int) =~= all);
        r
    }

    /// Block non-proxied UDP
    pub fn block_non_proxied_udp(&self) -> (r: FirewallRules)
        ensures
            r == (FirewallRules {
                block_direct_udp: true,
                allow_stun_only: true,
                allow_turn_only: true,
            }),
    {
        FirewallRules { block_direct_udp: true, allow_stun_only: true, allow_turn_only: true }
    }

    /// Test for WebRTC leak: there is no probe, so none is found.
    pub fn test_for_leak(&self) -> (r: Option<WebrtcLeakResult>)
        ensures
            r is None,
    {
        None
    }

    /// Update ICE policy
    pub fn set_ice_policy(&mut self, policy: IcePolicy)
        ensures
            final(self).ice_policy == policy,
            final(self).config == old(self).config,
            final(self).stun_config == old(self).stun_config,
            final(self).turn_config == old(self).turn_config,
            final(self).blocked_interfaces == old(self).blocked_interfaces,
    {
        self.ice_policy = policy;
    }

    /// Disable WebRTC entirely: relay only, and no relay.
    pub fn disable_webrtc(&mut self) -> (r: Result<(), RoutingError>)
        ensures
            r is Ok,
            final(self).ice_policy == IcePolicy::RelayOnly,
            final(self).turn_config.force_relay,
            final(self).turn_config.servers@ == Seq::<String>::empty(),
            final(self).turn_config.credentials == old(self).turn_config.credentials,
            final(self).config == old(self).config,
            final(self).stun_config == old(self).stun_config,
            final(self).blocked_interfaces == old(self).blocked_interfaces,
    {
        self.set_ice_policy(IcePolicy::RelayOnly);
        self.turn_config.force_relay = true;
        self.turn_config.servers.clear();
        Ok(())
    }
}

/// In relay-only mode nothing but relays gets through, however the other
/// settings stand.
pub proof fn law_relay_only_lets_only_relays_through(
    guard: WebrtcGuard,
    candidates: Seq<IceCandidate>,
    i: int,
)
    requires
        guard.ice_policy == IcePolicy::RelayOnly,
        0 <= i < candidates.filter(|c: IceCandidate| guard.passes(c)).len(),
    ensures
        candidates.filter(|c: IceCandidate| guard.passes(c))[i].candidate_type
            == CandidateType::Relay,
{
    let pass = |c: IceCandidate| guard.passes(c);
    broadcast use vstd::seq_lib::group_filter_ensures;

    assert(pass(candidates.filter(pass)[i]));
}

/// A candidate on a blocked interface never gets through.
pub proof fn law_blocked_interfaces_stay_out(
    guard: WebrtcGuard,
    candidates: Seq<IceCandidate>,
    i: int,
)
    requires
        0 <= i < candidates.filter(|c: IceCandidate| guard.passes(c)).len(),
    ensures
        !guard.blocked_interfaces@.contains(
            candidates.filter(|c: IceCandidate| guard.passes(c))[i].interface@,
        ),
{
    let pass = |c: IceCandidate| guard.passes(c);
    broadcast use vstd::seq_lib::group_filter_ensures;

    assert(pass(candidates.filter(pass)[i]));
}

/// Whether `ip` is an IPv4 address from `first` up to `last`.
pub open spec fn from_to(ip: IpAddr, first: int, last: int) -> bool {
    ip matches IpAddr::V4(n) && first <= n <= last
}

/// What gets through, policy by policy. Under every policy it is one of the
/// candidates, on an interface that is not blocked, and of these: all of them
/// under the first policy, the relays under the second, all but the hosts under
/// the third, and under the last those whose address is one of 10.0.0.0 to
/// 10.255.255.255, 172.16.0.0 to 172.31.255.255 or 192.168.0.0 to
/// 192.168.255.255.
pub proof fn law_what_gets_through(
    guard: WebrtcGuard,
    candidates: Seq<IceCandidate>,
    c: IceCandidate,
)
    ensures
        ({
            let through = candidates.filter(|c: IceCandidate| guard.passes(c)).contains(c);
            let open = candidates.contains(c) && !guard.blocked_interfaces@.contains(c.interface@);
            &&& guard.ice_policy == IcePolicy::All ==> through == open
            &&& guard.ice_policy == IcePolicy::RelayOnly ==> through == (open && c.candidate_type
                == CandidateType::Relay)
            &&& guard.ice_policy == IcePolicy::NoHost ==> through == (open && c.candidate_type
                != CandidateType::Host)
            &&& guard.ice_policy == IcePolicy::DefaultAddressOnly ==> through == (open && (from_to(
                c.ip,
                0x0A00_0000,
                0x0AFF_FFFF,
            ) || from_to(c.ip, 0xAC10_0000, 0xAC1F_FFFF) || from_to(
                c.ip,
                0xC0A8_0000,
                0xC0A8_FFFF,
            )))
        }),
{
    let pass = |c: IceCandidate| guard.passes(c);
    broadcast use vstd::seq_lib::group_filter_ensures;

    let r = candidates.filter(pass);
    if r.contains(c) {
        let i = choose|i: int| 0 <= i < r.len() && r[i] == c;
        assert(pass(r[i]));
        candidates.lemma_filter_contains_rev(pass, c);
    }
    if candidates.contains(c) && pass(c) {
        let i = choose|i: int| 0 <= i < candidates.len() && candidates[i] == c;
        assert(r.contains(candidates[i]));
    }
}

/// The guard says that local addresses are kept back exactly if its policy lets
/// no host through, whatever the address of the host.
pub proof fn law_locals_are_hidden(guard: WebrtcGuard)
    ensures
        guard.hides_locals() <==> forall|ip: IpAddr| !
            #[trigger] guard.ice_policy.admits(CandidateType::Host, ip),
{
    if !guard.hides_locals() {
        assert(guard.ice_policy.admits(CandidateType::Host, IpAddr::V4(0x0A00_0001)));
    }
}

/// Once the guard is initialized, what gets through is what got through before,
/// but for the candidates on the interfaces eth0, wlan0 and en0.
pub proof fn law_local_interfaces_are_blocked(
    before: WebrtcGuard,
    after: WebrtcGuard,
    c: IceCandidate,
)
    requires
        before.initialized(after),
    ensures
        after.passes(c) <==> before.passes(c) && c.interface@ != "eth0"@ && c.interface@
            != "wlan0"@ && c.interface@ != "en0"@,
{
}

/// ICE candidate
#[derive(Debug, Clone)]
pub struct IceCandidate {
    /// Address of the candidate.
    pub ip: IpAddr,
    /// Port of the candidate.
    pub port: u16,
    /// Type of the candidate.
    pub candidate_type: CandidateType,
    /// Interface that the candidate belongs to.
    pub interface: String,
    /// Foundation of the candidate.
    pub foundation: String,
    /// Priority of the candidate.
    pub priority: u32,
}

/// The types of candidates.
#[derive(Debug, Clone, Copy, PartialEq, Eq, Structural)]
pub enum CandidateType {
    /// An address of the host.
    Host,
    /// An address that a STUN server saw.
    ServerReflexive,
    /// An address that a peer saw.
    PeerReflexive,
    /// An address of a TURN server.
    Relay,
}

/// The ranges of VPN tunnels: 10.0.0.0/8, 172.16.0.0/12 and 192.168.0.0/16.
pub open spec fn in_tunnel_range(ip: IpAddr) -> bool {
    match ip {
        IpAddr::V4(n) => n / 0x100_0000 == 10 || n / 0x10_0000 == 0xAC1 || n / 0x1_0000 == 0xC0A8,
        IpAddr::V6(_) => false,
    }
}

/// The private ranges: those of VPN tunnels, carrier-grade NAT (100.64.0.0/10)
/// and unique local IPv6 addresses (fc00::/7).
pub open spec fn in_private_range(ip: IpAddr) -> bool {
    match ip {
        IpAddr::V4(n) => in_tunnel_range(ip) || n / 0x40_0000 == 0x191,
        IpAddr::V6(n) => n / 0x0200_0000_0000_0000_0000_0000_0000_0000 == 0x7E,
    }
}

/// The private addresses are 10.0.0.0 to 10.255.255.255, 100.64.0.0 to
/// 100.127.255.255, 172.16.0.0 to 172.31.255.255 and 192.168.0.0 to
/// 192.168.255.255, and the IPv6 addresses whose first byte is 0xFC or 0xFD; those
/// of VPN tunnels are the first, the third and the fourth of these ranges.
pub proof fn law_private_ranges(ip: IpAddr)
    ensures
        in_tunnel_range(ip) <==> from_to(ip, 0x0A00_0000, 0x0AFF_FFFF) || from_to(
            ip,
            0xAC10_0000,
            0xAC1F_FFFF,
        ) || from_to(ip, 0xC0A8_0000, 0xC0A8_FFFF),
        ip is V4 ==> (in_private_range(ip) <==> in_tunnel_range(ip) || from_to(
            ip,
            0x6440_0000,
            0x647F_FFFF,
        )),
        ip matches IpAddr::V6(n) ==> (in_private_range(ip)
            <==> 0xFC00_0000_0000_0000_0000_0000_0000_0000 <= n
            <= 0xFDFF_FFFF_FFFF_FFFF_FFFF_FFFF_FFFF_FFFF),
{
}

impl IceCandidate {
    /// Check if this is a VPN address
    pub fn is_vpn_address(&self) -> (r: bool)
        ensures
            r == in_tunnel_range(self.ip),
    {
        match self.ip {
            IpAddr::V4(n) => {
                let first: u32 = n / 0x100_0000;
                let second: u32 = n / 0x1_0000 % 0x100;
                first == 10 || (first == 172 && second >= 16 && second <= 31) || (first == 192
                    && second == 168)
            },
            IpAddr::V6(_) => false,
        }
    }
}

/// Check if IP is private/VPN range
pub fn is_private_ip(ip: &IpAddr) -> (r: bool)
    ensures
        r == in_private_range(*ip),
{
    match *ip {
        IpAddr::V4(n) => {
            let first: u32 = n / 0x100_0000;
            let second: u32 = n / 0x1_0000 % 0x100;
            first == 10 || (first == 172 && second >= 16 && second <= 31) || (first == 192
                && second == 168) || (first == 100 && second >= 64 && second <= 127)
        },
        IpAddr::V6(n) => {
            let segment: u16 = (n / 0x1_0000_0000_0000_0000_0000_0000_0000) as u16;
            assert((segment & 0xfe00 == 0xfc00) == (segment / 0x200 == 0x7E)) by (bit_vector);
            segment & 0xfe00 == 0xfc00
        },
    }
}

/// Firewall rules
#[derive(Debug, Clone, Copy, PartialEq, Eq, Structural)]
pub struct FirewallRules {
    /// Block UDP that goes out directly.
    pub block_direct_udp: bool,
    /// Let only STUN through.
    pub allow_stun_only: bool,
    /// Let only TURN through.
    pub allow_turn_only: bool,
}

/// WebRTC leak test result
#[derive(Debug, Clone)]
pub struct WebrtcLeakResult {
    /// Local addresses that leaked.
    pub local_ips_exposed: Vec<IpAddr>,
    /// Public address that leaked.
    pub public_ip_exposed: Option<IpAddr>,
    /// Whether anything leaked.
    pub is_leaking: bool,
}

/// Browser WebRTC policy enforcer
pub struct BrowserPolicyEnforcer {
    /// Target browser
    pub browser: BrowserType,
    /// Policy settings
    pub settings: BrowserSettings,
}

/// The browsers.
#[derive(Debug, Clone, Copy, PartialEq, Eq, Structural)]
pub enum BrowserType {
    /// Mozilla Firefox.
    Firefox,
    /// Google Chrome.
    Chrome,
    /// Apple Safari.
    Safari,
    /// Microsoft Edge.
    Edge,
    /// Brave.
    Brave,
}

/// Settings of a [`BrowserPolicyEnforcer`].
#[derive(Debug, Clone, Copy, PartialEq, Eq, Structural)]
pub struct BrowserSettings {
    /// Disable WebRTC
    pub disable_webrtc: bool,
    /// Force proxy
    pub force_proxy: bool,
    /// Block local IPs
    pub block_local_ips: bool,
}

/// Browser configuration
#[derive(Debug, Clone)]
pub struct BrowserConfig {
    /// Preferences, each a name and a value.
    pub preferences: Vec<(String, String)>,
}

impl View for BrowserConfig {
    type V = Seq<(Seq<char>, Seq<char>)>;

    open spec fn view(&self) -> Seq<(Seq<char>, Seq<char>)> {
        self.preferences@.map_values(|p: (String, String)| (p.0@, p.1@))
    }
}

/// The preferences that keep `browser` from leaking.
pub open spec fn preferences_for(browser: BrowserType, settings: BrowserSettings) -> Seq<
    (Seq<char>, Seq<char>),
> {
    match browser {
        BrowserType::Firefox => if settings.disable_webrtc {
            seq![("media.peerconnection.enabled"@, "false"@)]
        } else {
            seq![
                ("media.peerconnection.ice.default_address_only"@, "true"@),
                ("media.peerconnection.ice.no_host"@, "true"@),
            ]
        },
        BrowserType::Chrome | BrowserType::Edge => seq![
            ("webrtc.ip_handling_policy"@, "disable_non_proxied_udp"@),
        ],
        BrowserType::Safari => Seq::empty(),
        BrowserType::Brave => seq![
            ("webrtc.ip_handling_policy"@, "default_public_and_private_interfaces"@),
        ],
    }
}

/// Edge is told what Chrome is told, and Safari nothing; Firefox is told one thing
/// where WebRTC is to be off and two where it is not; and nothing depends on the other
/// settings.
pub proof fn law_what_browsers_are_told(a: BrowserSettings, b: BrowserSettings)
    ensures
        preferences_for(BrowserType::Edge, a) == preferences_for(BrowserType::Chrome, b),
        preferences_for(BrowserType::Brave, a) == preferences_for(BrowserType::Brave, b),
        preferences_for(BrowserType::Safari, a).len() == 0,
        preferences_for(BrowserType::Chrome, a) == seq![
            ("webrtc.ip_handling_policy"@, "disable_non_proxied_udp"@),
        ],
        a.disable_webrtc == b.disable_webrtc ==> preferences_for(BrowserType::Firefox, a)
            == preferences_for(BrowserType::Firefox, b),
        a.disable_webrtc ==> preferences_for(BrowserType::Firefox, a) == seq![
            ("media.peerconnection.enabled"@, "false"@),
        ],
        !a.disable_webrtc ==> preferences_for(BrowserType::Firefox, a).len() == 2 && forall|i: int|
            0 <= i < 2 ==> (#[trigger] preferences_for(BrowserType::Firefox, a)[i]).1 == "true"@,
{
}

impl BrowserConfig {
    fn empty() -> (r: BrowserConfig)
        ensures
            r@ == Seq::<(Seq<char>, Seq<char>)>::empty(),
    {
        let r = BrowserConfig { preferences: Vec::new() };
        assert(r@ =~= Seq::<(Seq<char>, Seq<char>)>::empty());
        r
    }

    fn add(&mut self, name: &str, value: &str)
        ensures
            final(self)@ == old(self)@.push((name@, value@)),
    {
        self.preferences.push((name.to_owned(), value.to_owned()));
        assert(self@ =~= old(self)@.push((name@, value@)));
    }
}

impl BrowserPolicyEnforcer {
    /// Create new enforcer
    pub fn new(browser: BrowserType) -> (r: BrowserPolicyEnforcer)
        ensures
            r.browser == browser,
            r.settings == (BrowserSettings {
                disable_webrtc: false,
                force_proxy: true,
                block_local_ips: true,
            }),
    {
        BrowserPolicyEnforcer {
            browser,
            settings: BrowserSettings {
                disable_webrtc: false,
                force_proxy: true,
                block_local_ips: true,
            },
        }
    }

    /// Generate configuration for browser
    pub fn generate_config(&self) -> (r: BrowserConfig)
        ensures
            r@ == preferences_for(self.browser, self.settings),
    {
        match self.browser {
            BrowserType::Firefox => self.firefox_config(),
            BrowserType::Chrome => self.chrome_config(),
            BrowserType::Safari => self.safari_config(),
            BrowserType::Edge => self.edge_config(),
            BrowserType::Brave => self.brave_config(),
        }
    }

    /// Firefox configuration
    pub fn firefox_config(&self) -> (r: BrowserConfig)
        ensures
            r@ == preferences_for(BrowserType::Firefox, self.settings),
    {
        let mut r = BrowserConfig::empty();
        if self.settings.disable_webrtc {
            r.add("media.peerconnection.enabled", "false");
        } else {
            r.add("media.peerconnection.ice.default_address_only", "true");
            r.add("media.peerconnection.ice.no_host", "true");
        }
        assert(r@ =~= preferences_for(BrowserType::Firefox, self.settings));
        r
    }

    /// Chrome configuration
    pub fn chrome_config(&self) -> (r: BrowserConfig)
        ensures
            r@ == preferences_for(BrowserType::Chrome, self.settings),
    {
        let mut r = BrowserConfig::empty();
        r.add("webrtc.ip_handling_policy", "disable_non_proxied_udp");
        assert(r@ =~= preferences_for(BrowserType::Chrome, self.settings));
        r
    }

    /// Safari configuration: Safari has built-in protections.
    pub fn safari_config(&self) -> (r: BrowserConfig)
        ensures
            r@ == preferences_for(BrowserType::Safari, self.settings),
    {
        BrowserConfig::empty()
    }

    /// Edge configuration: that of Chrome.
    pub fn edge_config(&self) -> (r: BrowserConfig)
        ensures
            r@ == preferences_for(BrowserType::Edge, self.settings),
    {
        self.chrome_config()
    }

    /// Brave configuration
    pub fn brave_config(&self) -> (r: BrowserConfig)
        ensures
            r@ == preferences_for(BrowserType::Brave, self.settings),
    {
        let mut r = BrowserConfig::empty();
        r.add("webrtc.ip_handling_policy", "default_public_and_private_interfaces");
        assert(r@ =~= preferences_for(BrowserType::Brave, self.settings));
        r
    }
}

/// STUN/TURN server tester
pub struct StunTurnTester {
    /// Test servers
    pub servers: Vec<String>,
}

impl Default for StunTurnTester {
    fn default() -> (r: StunTurnTester)
        ensures
            texts(r.servers@) == test_servers(),
    {
        Self::new()
    }
}

/// The public servers to test with.
pub open spec fn test_servers() -> Seq<Seq<char>> {
    seq!["stun.l.google.com:19302"@, "stun1.l.google.com:19302"@, "stun.cloudflare.com:3478"@]
}

impl StunTurnTester {
    /// Create new tester
    pub fn new() -> (r: StunTurnTester)
        ensures
            texts(r.servers@) == test_servers(),
    {
        let mut servers: Vec<String> = Vec::new();
        servers.push("stun.l.google.com:19302".to_owned());
        servers.push("stun1.l.google.com:19302".to_owned());
        servers.push("stun.cloudflare.com:3478".to_owned());
        assert(texts(servers@) =~= test_servers());
        StunTurnTester { servers }
    }

    /// Test for IP exposure: `mapped[i]` is the address that server `i` saw, if
    /// it answered. Each answer is an exposure, in the order of the servers.
    pub fn test_ip_exposure(&self, mapped: &Vec<Option<IpAddr>>) -> (r: Vec<IpExposure>)
        requires
            mapped@.len() == self.servers@.len(),
        ensures
            r@.map_values(|e: IpExposure| e@) == exposures(texts(self.servers@), mapped@),
    {
        let mut r: Vec<IpExposure> = Vec::new();
        let ghost seen = |e: IpExposure| e@;
        assert(r@.map_values(seen) =~= Seq::<ExposureView>::empty());
        let mut i: usize = 0;
        while i < self.servers.len()
            invariant
                i <= self.servers@.len(),
                mapped@.len() == self.servers@.len(),
                seen == (|e: IpExposure| e@),
                r@.map_values(seen) == exposures(
                    texts(self.servers@).take(i as int),
                    mapped@.take(i as int),
                ),
            decreases self.servers@.len() - i,
        {
            let ghost before = r@;
            match mapped[i] {
                Some(ip) => {
                    let e = IpExposure {
                        source: self.servers[i].clone(),
                        ip,
                        is_vpn_ip: is_private_ip(&ip),
                    };
                    r.push(e);
                    assert(r@.map_values(seen) =~= before.map_values(seen).push(e@));
                },
                None => {},
            }
            i = i + 1;
            assert(texts(self.servers@).take(i as int).drop_last() =~= texts(self.servers@).take(
                i - 1,
            ));
            assert(mapped@.take(i as int).drop_last() =~= mapped@.take(i - 1));
        }
        assert(texts(self.servers@).take(i as int) =~= texts(self.servers@));
        assert(mapped@.take(i as int) =~= mapped@);
        r
    }
}

/// The exposures that the answers of `servers` show.
pub open spec fn exposures(servers: Seq<Seq<char>>, mapped: Seq<Option<IpAddr>>) -> Seq<
    ExposureView,
>
    decreases mapped.len(),
{
    if mapped.len() == 0 {
        Seq::empty()
    } else {
        let rest = exposures(servers.drop_last(), mapped.drop_last());
        match mapped.last() {
            None => rest,
            Some(ip) => rest.push(
                ExposureView { source: servers.last(), ip, is_vpn_ip: in_private_range(ip) },
            ),
        }
    }
}

/// Every answer is an exposure and every exposure is an answer, by the server
/// that gave it, and the exposures stand in the order of the servers: what the
/// first servers expose comes first.
pub proof fn law_every_answer_is_an_exposure(
    servers: Seq<Seq<char>>,
    mapped: Seq<Option<IpAddr>>,
    k: int,
)
    requires
        servers.len() == mapped.len(),
        0 <= k < mapped.len(),
    ensures
        ({
            let before = exposures(servers.take(k), mapped.take(k));
            let upto = exposures(servers.take(k + 1), mapped.take(k + 1));
            &&& upto.is_prefix_of(exposures(servers, mapped))
            &&& mapped[k] is None ==> upto == before
            &&& mapped[k] matches Some(ip) ==> upto.len() == before.len() + 1 && before.is_prefix_of(
                upto,
            ) && upto.last().source == servers[k] && upto.last().ip == ip && upto.last().is_vpn_ip
                == in_private_range(ip)
        }),
    decreases mapped.len() - k,
{
    let n = k + 1;
    assert(servers.take(n).drop_last() =~= servers.take(k));
    assert(mapped.take(n).drop_last() =~= mapped.take(k));
    if n == mapped.len() {
        assert(servers.take(n) =~= servers);
        assert(mapped.take(n) =~= mapped);
    } else {
        law_every_answer_is_an_exposure(servers, mapped, n);
    }
}

/// The bytes of a Binding Request with the given transaction.
pub open spec fn binding_request(transaction: Seq<u8>) -> Seq<u8> {
    seq![0x00u8, 0x01, 0x00, 0x00, 0x21, 0x12, 0xA4, 0x42] + transaction
}

/// Build STUN Binding Request (RFC 5389) with a fresh transaction
pub fn build_stun_binding_request() -> (r: Vec<u8>)
    ensures
        exists|t: Seq<u8>| t.len() == 12 && r@ == #[trigger] binding_request(t),
{
    let t = random::random_transaction();
    stun_binding_request(&t)
}

/// The Binding Request with the given transaction.
pub fn stun_binding_request(transaction: &[u8; 12]) -> (r: Vec<u8>)
    ensures
        r@ == binding_request(transaction@),
{
    let mut r: Vec<u8> = Vec::new();
    wire::push_u16(&mut r, 0x0001);
    wire::push_u16(&mut r, 0);
    wire::push_u32(&mut r, 0x2112_A442);
    r.extend_from_slice(transaction);
    assert(r@ =~= binding_request(transaction@));
    r
}

/// The address that the attribute value `v` of type `typ` holds, if any, in a
/// response whose bytes from the magic cookie on are `key`.
///
/// XOR-MAPPED-ADDRESS (0x0020) is read for both families, MAPPED-ADDRESS
/// (0x0001) for IPv4.
pub open spec fn mapped_address(typ: nat, v: Seq<u8>, key: Seq<u8>) -> Option<IpAddr> {
    if v.len() < 8 {
        None
    } else if typ == 0x0020 && v[1] == 0x01 {
        Some(IpAddr::V4((big_endian(v.subrange(4, 8)) as u32) ^ 0x2112_A442))
    } else if typ == 0x0020 && v[1] == 0x02 && v.len() >= 20 {
        Some(IpAddr::V6(big_endian(Seq::new(16, |i: int| v[4 + i] ^ key[i])) as u128))
    } else if typ == 0x0001 && v[1] == 0x01 {
        Some(IpAddr::V4(big_endian(v.subrange(4, 8)) as u32))
    } else {
        None
    }
}

/// The first address in an attribute of type `wanted` among those from `at` up
/// to `end`. Each attribute is a type, a length and a value padded to a multiple
/// of four bytes; one that runs over the data ends the search.
pub open spec fn first_address(data: Seq<u8>, wanted: nat, at: int, end: int) -> Option<IpAddr>
    decreases
            if at < end {
                end - at
            } else {
                0
            },
{
    if at + 4 > end || at + 4 > data.len() {
        None
    } else {
        let typ = big_endian(data.subrange(at, at + 2));
        let len = big_endian(data.subrange(at + 2, at + 4)) as int;
        if at + 4 + len > data.len() {
            None
        } else {
            let found = mapped_address(typ, data.subrange(at + 4, at + 4 + len), data.skip(4));
            if typ == wanted && found is Some {
                found
            } else {
                first_address(data, wanted, at + 4 + (len + 3) / 4 * 4, end)
            }
        }
    }
}

/// Whether `data` begins as a Binding Success Response does.
pub open spec fn is_binding_response(data: Seq<u8>) -> bool {
    &&& data.len() >= 20
    &&& data.subrange(0, 2) == seq![0x01u8, 0x01]
    &&& data.subrange(4, 8) == seq![0x21u8, 0x12, 0xA4, 0x42]
}

/// The address that the response `data` reports, if any: that of its first
/// XOR-MAPPED-ADDRESS, else that of its first MAPPED-ADDRESS.
pub open spec fn response_says(data: Seq<u8>) -> Option<IpAddr> {
    let end = 20 + big_endian(data.subrange(2, 4)) as int;
    if !is_binding_response(data) {
        None
    } else if first_address(data, 0x0020, 20, end) is Some {
        first_address(data, 0x0020, 20, end)
    } else {
        first_address(data, 0x0001, 20, end)
    }
}

fn attribute_address(data: &[u8], typ: u16, at: usize, len: usize) -> (r: Option<IpAddr>)
    requires
        20 <= at,
        at + len <= data@.len(),
    ensures
        r == mapped_address(typ as nat, data@.subrange(at as int, at + len), data@.skip(4)),
{
    let ghost v = data@.subrange(at as int, at + len);
    assert(data.len() <= usize::MAX);
    if len < 8 {
        return None;
    }
    let family: u8 = data[at + 1];
    assert(v.subrange(4, 8) =~= data@.subrange(at + 4, at + 8));
    if typ == 0x0020 && family == 0x01 {
        return Some(IpAddr::V4(wire::read_u32(data, at + 4) ^ 0x2112_A442));
    }
    if typ == 0x0020 && family == 0x02 && len >= 20 {
        let mut bytes: Vec<u8> = Vec::new();
        let mut i: usize = 0;
        while i < 16
            invariant
                i <= 16,
                20 <= at,
                20 <= len,
                at + len <= data@.len(),
                data@.len() <= usize::MAX,
                v == data@.subrange(at as int, at + len),
                bytes@ == Seq::new(i as nat, |k: int| v[4 + k] ^ data@.skip(4)[k]),
            decreases 16 - i,
        {
            bytes.push(data[at + 4 + i] ^ data[4 + i]);
            i = i + 1;
            assert(bytes@ =~= Seq::new(i as nat, |k: int| v[4 + k] ^ data@.skip(4)[k]));
        }
        assert(bytes@.subrange(0, 16) =~= Seq::new(16, |k: int| v[4 + k] ^ data@.skip(4)[k]));
        return Some(IpAddr::V6(wire::read_u128(bytes.as_slice(), 0)));
    }
    if typ == 0x0001 && family == 0x01 {
        return Some(IpAddr::V4(wire::read_u32(data, at + 4)));
    }
    None
}

/// The first address in an attribute of type `wanted`, up to `end`.
fn find_address(data: &[u8], wanted: u16, end: usize) -> (r: Option<IpAddr>)
    requires
        data@.len() >= 20,
        end <= 20 + 0xFFFF,
    ensures
        r == first_address(data@, wanted as nat, 20, end as int),
{
    let mut at: usize = 20;
    assert(data.len() <= usize::MAX);
    while at + 4 <= end && at + 4 <= data.len()
        invariant
            20 <= at,
            at <= 20 + 2 * 0x1_0008,
            end <= 20 + 0xFFFF,
            data@.len() <= usize::MAX,
            first_address(data@, wanted as nat, 20, end as int) == first_address(
                data@,
                wanted as nat,
                at as int,
                end as int,
            ),
        decreases end + 0x4_0000 - at,
    {
        let typ: u16 = wire::read_u16(data, at);
        let len: usize = wire::read_u16(data, at + 2) as usize;
        at = at + 4;
        if len > data.len() - at {
            return None;
        }
        if typ == wanted {
            match attribute_address(data, typ, at, len) {
                Some(ip) => {
                    return Some(ip);
                },
                None => {},
            }
        }
        at = at + (len + 3) / 4 * 4;
    }
    None
}

/// Parse STUN Binding Response (RFC 5389), whatever its bytes
pub fn parse_stun_response(data: &[u8]) -> (r: Result<IpAddr, StunError>)
    ensures
        match response_says(data@) {
            Some(ip) => r == Ok::<IpAddr, StunError>(ip),
            None => r == Err::<IpAddr, StunError>(StunError::InvalidResponse),
        },
{
    if data.len() < 20 {
        return Err(StunError::InvalidResponse);
    }
    if data[0] != 0x01 || data[1] != 0x01 {
        assert(data@.subrange(0, 2)[0] == data@[0] && data@.subrange(0, 2)[1] == data@[1]);
        return Err(StunError::InvalidResponse);
    }
    assert(data@.subrange(0, 2) =~= seq![0x01u8, 0x01]);
    if data[4] != 0x21 || data[5] != 0x12 || data[6] != 0xA4 || data[7] != 0x42 {
        assert(forall|i: int| 0 <= i < 4 ==> data@.subrange(4, 8)[i] == data@[4 + i]);
        return Err(StunError::InvalidResponse);
    }
    assert(data@.subrange(4, 8) =~= seq![0x21u8, 0x12, 0xA4, 0x42]);
    let end: usize = 20 + wire::read_u16(data, 2) as usize;
    match find_address(data, 0x0020, end) {
        Some(ip) => Ok(ip),
        None => match find_address(data, 0x0001, end) {
            Some(ip) => Ok(ip),
            None => Err(StunError::InvalidResponse),
        },
    }
}

/// A server that writes the address of its client XORed with the magic cookie,
/// as the only attribute of its response, is understood.
pub proof fn law_xor_mapped_address_is_read_back(n: u32, port: u16, transaction: Seq<u8>)
    requires
        transaction.len() == 12,
    ensures
        response_says(
            seq![0x01u8, 0x01, 0x00, 0x0C, 0x21, 0x12, 0xA4, 0x42] + transaction + seq![
                0x00u8,
                0x20,
                0x00,
                0x08,
                0x00,
                0x01,
            ] + wire::two_bytes(port as int) + wire::four_bytes((n ^ 0x2112_A442) as int),
        ) == Some(IpAddr::V4(n)),
{
    let x: u32 = n ^ 0x2112_A442;
    let data = seq![0x01u8, 0x01, 0x00, 0x0C, 0x21, 0x12, 0xA4, 0x42] + transaction + seq![
        0x00u8,
        0x20,
        0x00,
        0x08,
        0x00,
        0x01,
    ] + wire::two_bytes(port as int) + wire::four_bytes(x as int);
    assert(data.subrange(0, 2) =~= seq![0x01u8, 0x01]);
    assert(data.subrange(4, 8) =~= seq![0x21u8, 0x12, 0xA4, 0x42]);
    assert(data.subrange(2, 4) =~= wire::two_bytes(12));
    wire::law_two_bytes_round_trip(12);
    assert(data.subrange(20, 22) =~= wire::two_bytes(0x20));
    wire::law_two_bytes_round_trip(0x20);
    assert(data.subrange(22, 24) =~= wire::two_bytes(8));
    wire::law_two_bytes_round_trip(8);
    let v = data.subrange(24, 32);
    assert(v.subrange(4, 8) =~= wire::four_bytes(x as int));
    wire::law_four_bytes_round_trip(x as int);
    assert(v[1] == 0x01);
    assert((n ^ 0x2112_A442) ^ 0x2112_A442 == n) by (bit_vector);
    assert(mapped_address(0x20, v, data.skip(4)) == Some(IpAddr::V4(n)));
}

/// A server that writes the IPv6 address of its client XORed with the magic
/// cookie and the transaction, as the only attribute of its response, is
/// understood.
pub proof fn law_long_address_is_read_back(octets: Seq<u8>, port: u16, transaction: Seq<u8>)
    requires
        octets.len() == 16,
        transaction.len() == 12,
    ensures
        ({
            let key = seq![0x21u8, 0x12, 0xA4, 0x42] + transaction;
            response_says(
                seq![0x01u8, 0x01, 0x00, 0x18] + key + seq![
                    0x00u8,
                    0x20,
                    0x00,
                    0x14,
                    0x00,
                    0x02,
                ] + wire::two_bytes(port as int) + Seq::new(16, |i: int| octets[i] ^ key[i]),
            ) == Some(IpAddr::V6(big_endian(octets) as u128))
        }),
{
    let key = seq![0x21u8, 0x12, 0xA4, 0x42] + transaction;
    let written = Seq::new(16, |i: int| octets[i] ^ key[i]);
    let data = seq![0x01u8, 0x01, 0x00, 0x18] + key + seq![
        0x00u8,
        0x20,
        0x00,
        0x14,
        0x00,
        0x02,
    ] + wire::two_bytes(port as int) + written;
    assert(data.subrange(0, 2) =~= seq![0x01u8, 0x01]);
    assert(data.subrange(4, 8) =~= seq![0x21u8, 0x12, 0xA4, 0x42]);
    assert(data.subrange(2, 4) =~= wire::two_bytes(24));
    wire::law_two_bytes_round_trip(24);
    assert(data.subrange(20, 22) =~= wire::two_bytes(0x20));
    wire::law_two_bytes_round_trip(0x20);
    assert(data.subrange(22, 24) =~= wire::two_bytes(20));
    wire::law_two_bytes_round_trip(20);
    let v = data.subrange(24, 44);
    assert(v[1] == 0x02);
    let read = Seq::new(16, |i: int| v[4 + i] ^ data.skip(4)[i]);
    assert(read =~= octets) by {
        assert forall|i: int| 0 <= i < 16 implies read[i] == octets[i] by {
            assert(v[4 + i] == written[i]);
            assert(data.skip(4)[i] == key[i]);
            let a = octets[i];
            let b = key[i];
            assert((a ^ b) ^ b == a) by (bit_vector);
        }
    }
    assert(mapped_address(0x20, v, data.skip(4)) == Some(
        IpAddr::V6(big_endian(octets) as u128),
    ));
}

/// An attribute of a response.
pub enum StunAttribute {
    /// The IPv4 address of the client, XORed with the magic cookie.
    Masked(u32),
    /// The IPv6 address of the client, XORed with the magic cookie and the
    /// transaction.
    MaskedLong(Seq<u8>),
    /// The IPv4 address of the client, in the clear.
    Plain(u32),
    /// Anything else.
    Other {
        /// The type of the attribute.
        typ: u16,
        /// Its value.
        value: Seq<u8>,
    },
}

impl StunAttribute {
    /// Whether the attribute is well-formed, and is another than those that
    /// give an address only where it is said to be.
    pub open spec fn sound(self) -> bool {
        &&& self matches StunAttribute::MaskedLong(octets) ==> octets.len() == 16
        &&& self matches StunAttribute::Other { typ, value } ==> value.len() <= 0xFFFF && typ != 0x20
            && typ != 0x01
    }

    /// The type of the attribute.
    pub open spec fn typ(self) -> int {
        match self {
            StunAttribute::Masked(_) => 0x20,
            StunAttribute::MaskedLong(_) => 0x20,
            StunAttribute::Plain(_) => 0x01,
            StunAttribute::Other { typ, .. } => typ as int,
        }
    }

    /// The value of the attribute, with a port.
    pub open spec fn value(self, port: Seq<u8>, transaction: Seq<u8>) -> Seq<u8> {
        let key = seq![0x21u8, 0x12, 0xA4, 0x42] + transaction;
        match self {
            StunAttribute::Masked(n) => seq![0x00u8, 0x01] + port + wire::four_bytes(
                (n ^ 0x2112_A442) as int,
            ),
            StunAttribute::MaskedLong(octets) => seq![0x00u8, 0x02] + port + Seq::new(
                16,
                |i: int| octets[i] ^ key[i],
            ),
            StunAttribute::Plain(n) => seq![0x00u8, 0x01] + port + wire::four_bytes(n as int),
            StunAttribute::Other { value, .. } => value,
        }
    }

    /// The attribute on the wire, filled up with zeros to a multiple of four bytes.
    pub open spec fn bytes(self, port: Seq<u8>, transaction: Seq<u8>) -> Seq<u8> {
        let v = self.value(port, transaction);
        wire::two_bytes(self.typ()) + wire::two_bytes(v.len() as int) + v + Seq::new(
            ((4 - v.len() % 4) % 4) as nat,
            |i: int| 0u8,
        )
    }

    /// The address in an attribute of type `wanted`.
    pub open spec fn address(self, wanted: int) -> Option<IpAddr> {
        match self {
            StunAttribute::Masked(n) if wanted == 0x20 => Some(IpAddr::V4(n)),
            StunAttribute::MaskedLong(octets) if wanted == 0x20 => Some(
                IpAddr::V6(big_endian(octets) as u128),
            ),
            StunAttribute::Plain(n) if wanted == 0x01 => Some(IpAddr::V4(n)),
            _ => None,
        }
    }
}

/// The attributes on the wire, one after the other.
pub open spec fn attribute_bytes(
    attributes: Seq<StunAttribute>,
    port: Seq<u8>,
    transaction: Seq<u8>,
) -> Seq<u8>
    decreases attributes.len(),
{
    if attributes.len() == 0 {
        Seq::empty()
    } else {
        attributes[0].bytes(port, transaction) + attribute_bytes(
            attributes.skip(1),
            port,
            transaction,
        )
    }
}

/// The first address in an attribute of type `wanted`.
pub open spec fn first_in(attributes: Seq<StunAttribute>, wanted: int) -> Option<IpAddr>
    decreases attributes.len(),
{
    if attributes.len() == 0 {
        None
    } else if attributes[0].address(wanted) is Some {
        attributes[0].address(wanted)
    } else {
        first_in(attributes.skip(1), wanted)
    }
}

/// What one attribute says.
#[verifier::rlimit(40)]
proof fn lemma_attribute(
    attribute: StunAttribute,
    port: Seq<u8>,
    transaction: Seq<u8>,
    key: Seq<u8>,
    wanted: int,
)
    requires
        attribute.sound(),
        port.len() == 2,
        transaction.len() == 12,
        key.len() >= 16,
        key.take(16) == seq![0x21u8, 0x12, 0xA4, 0x42] + transaction,
        wanted == 0x20 || wanted == 0x01,
    ensures
        ({
            let v = attribute.value(port, transaction);
            &&& v.len() <= 0xFFFF
            &&& attribute.typ() == wanted ==> mapped_address(attribute.typ() as nat, v, key)
                == attribute.address(wanted)
            &&& attribute.typ() != wanted ==> attribute.address(wanted) is None
        }),
{
    let v = attribute.value(port, transaction);
    match attribute {
        StunAttribute::Masked(n) => {
            let x: u32 = n ^ 0x2112_A442;
            assert(v.subrange(4, 8) =~= wire::four_bytes(x as int));
            wire::law_four_bytes_round_trip(x as int);
            assert((n ^ 0x2112_A442) ^ 0x2112_A442 == n) by (bit_vector);
        },
        StunAttribute::MaskedLong(octets) => {
            let read = Seq::new(16, |i: int| v[4 + i] ^ key[i]);
            assert forall|i: int| 0 <= i < 16 implies read[i] == octets[i] by {
                assert(key.take(16)[i] == key[i]);
                let a = octets[i];
                let b = key[i];
                assert((a ^ b) ^ b == a) by (bit_vector);
            }
            assert(read =~= octets);
        },
        StunAttribute::Plain(n) => {
            assert(v.subrange(4, 8) =~= wire::four_bytes(n as int));
            wire::law_four_bytes_round_trip(n as int);
        },
        StunAttribute::Other { .. } => {},
    }
}

/// Where the parts of an attribute stand.
proof fn lemma_attribute_parts(before: Seq<u8>, typ: int, v: Seq<u8>, fill: Seq<u8>, rest: Seq<u8>)
    requires
        0 <= typ <= 0xFFFF,
        v.len() <= 0xFFFF,
    ensures
        ({
            let data = before + (wire::two_bytes(typ) + wire::two_bytes(v.len() as int) + v + fill)
                + rest;
            let at = before.len() as int;
            &&& big_endian(data.subrange(at, at + 2)) == typ
            &&& big_endian(data.subrange(at + 2, at + 4)) == v.len()
            &&& data.subrange(at + 4, at + 4 + v.len()) == v
        }),
{
    let data = before + (wire::two_bytes(typ) + wire::two_bytes(v.len() as int) + v + fill) + rest;
    let at = before.len() as int;
    assert(data.subrange(at, at + 2) =~= wire::two_bytes(typ));
    wire::law_two_bytes_round_trip(typ);
    assert(data.subrange(at + 2, at + 4) =~= wire::two_bytes(v.len() as int));
    wire::law_two_bytes_round_trip(v.len() as int);
    assert(data.subrange(at + 4, at + 4 + v.len()) =~= v);
}

#[verifier::spinoff_prover]
#[verifier::rlimit(40)]
proof fn lemma_attributes_are_read(
    before: Seq<u8>,
    attributes: Seq<StunAttribute>,
    port: Seq<u8>,
    transaction: Seq<u8>,
    wanted: int,
)
    requires
        forall|i: int| 0 <= i < attributes.len() ==> (#[trigger] attributes[i]).sound(),
        port.len() == 2,
        transaction.len() == 12,
        before.len() >= 20,
        before.subrange(4, 20) == seq![0x21u8, 0x12, 0xA4, 0x42] + transaction,
        wanted == 0x20 || wanted == 0x01,
    ensures
        ({
            let data = before + attribute_bytes(attributes, port, transaction);
            first_address(data, wanted as nat, before.len() as int, data.len() as int) == first_in(
                attributes,
                wanted,
            )
        }),
    decreases attributes.len(),
{
    let data = before + attribute_bytes(attributes, port, transaction);
    let at = before.len() as int;
    if attributes.len() > 0 {
        let one = attributes[0];
        let rest = attributes.skip(1);
        let tail = attribute_bytes(rest, port, transaction);
        let v = one.value(port, transaction);
        let len = v.len() as int;
        let fill = Seq::new(((4 - v.len() % 4) % 4) as nat, |i: int| 0u8);
        let next = before + one.bytes(port, transaction);
        assert(data =~= next + tail);
        assert(data.skip(4).take(16) == seq![0x21u8, 0x12, 0xA4, 0x42] + transaction) by {
            assert(data.skip(4).take(16) =~= before.subrange(4, 20));
        }
        lemma_attribute(one, port, transaction, data.skip(4), wanted);
        assert forall|i: int| 0 <= i < rest.len() implies (#[trigger] rest[i]).sound() by {
            assert(rest[i] == attributes[i + 1]);
        }
        assert(next.subrange(4, 20) == before.subrange(4, 20)) by {
            assert(next.subrange(4, 20) =~= before.subrange(4, 20));
        }
        lemma_attributes_are_read(next, rest, port, transaction, wanted);
        lemma_attribute_parts(before, one.typ(), v, fill, tail);
        assert(len + (4 - len % 4) % 4 == (len + 3) / 4 * 4);
        assert(next.len() == at + 4 + (len + 3) / 4 * 4);
    }
}

/// Of a response with any attributes, of any lengths and in any order, the
/// address is that of the first that is XORed, else the first in the clear, else
/// there is none.
#[verifier::rlimit(40)]
pub proof fn law_the_address_is_found(
    attributes: Seq<StunAttribute>,
    port: Seq<u8>,
    transaction: Seq<u8>,
)
    requires
        forall|i: int| 0 <= i < attributes.len() ==> (#[trigger] attributes[i]).sound(),
        port.len() == 2,
        transaction.len() == 12,
        attribute_bytes(attributes, port, transaction).len() <= 0xFFFF,
    ensures
        ({
            let body = attribute_bytes(attributes, port, transaction);
            response_says(
                seq![0x01u8, 0x01] + wire::two_bytes(body.len() as int) + seq![
                    0x21u8,
                    0x12,
                    0xA4,
                    0x42,
                ] + transaction + body,
            ) == (if first_in(attributes, 0x20) is Some {
                first_in(attributes, 0x20)
            } else {
                first_in(attributes, 0x01)
            })
        }),
{
    let body = attribute_bytes(attributes, port, transaction);
    let before = seq![0x01u8, 0x01] + wire::two_bytes(body.len() as int) + seq![
        0x21u8,
        0x12,
        0xA4,
        0x42,
    ] + transaction;
    let data = before + body;
    assert(data.subrange(0, 2) =~= seq![0x01u8, 0x01]);
    assert(data.subrange(4, 8) =~= seq![0x21u8, 0x12, 0xA4, 0x42]);
    assert(data.subrange(2, 4) =~= wire::two_bytes(body.len() as int));
    wire::law_two_bytes_round_trip(body.len() as int);
    assert(before.subrange(4, 20) =~= seq![0x21u8, 0x12, 0xA4, 0x42] + transaction);
    lemma_attributes_are_read(before, attributes, port, transaction, 0x20);
    lemma_attributes_are_read(before, attributes, port, transaction, 0x01);
}

/// Only a Binding Success Response with the magic cookie says anything, and none that
/// is shorter than its header.
pub proof fn law_other_messages_say_nothing(data: Seq<u8>)
    requires
        data.len() < 20 || data[0] != 0x01 || data[1] != 0x01 || data[4] != 0x21 || data[5] != 0x12
            || data[6] != 0xA4 || data[7] != 0x42,
    ensures
        response_says(data) is None,
{
    if is_binding_response(data) {
        assert(data.subrange(0, 2)[0] == data[0] && data.subrange(0, 2)[1] == data[1]);
        assert(forall|i: int| 0 <= i < 4 ==> data.subrange(4, 8)[i] == data[4 + i]);
    }
}

/// A Binding Request is a header of twenty bytes with nothing behind it: the
/// type 1, the length of what follows, the magic cookie and the transaction.
pub proof fn law_binding_request(transaction: Seq<u8>)
    requires
        transaction.len() == 12,
    ensures
        ({
            let r = binding_request(transaction);
            &&& r.len() == 20
            &&& big_endian(r.subrange(0, 2)) == 1
            &&& big_endian(r.subrange(2, 4)) == r.len() - 20
            &&& big_endian(r.subrange(4, 8)) == 0x2112_A442
            &&& r.subrange(8, 20) == transaction
        }),
{
    let r = binding_request(transaction);
    assert(r.subrange(0, 2) =~= wire::two_bytes(1));
    wire::law_two_bytes_round_trip(1);
    assert(r.subrange(2, 4) =~= wire::two_bytes(0));
    wire::law_two_bytes_round_trip(0);
    assert(r.subrange(4, 8) =~= wire::four_bytes(0x2112_A442));
    wire::law_four_bytes_round_trip(0x2112_A442);
    assert(r.subrange(8, 20) =~= transaction);
}

/// STUN test result
#[derive(Debug, Clone)]
pub struct StunResult {
    /// The server, by a text that does not tell which.
    pub server: String,
    /// The address that the server saw.
    pub mapped_address: Option<IpAddr>,
    /// Whether the server answered.
    pub reachable: bool,
}

impl StunResult {
    /// The result for a server that saw the address `ip`.
    pub fn reached(ip: IpAddr) -> (r: StunResult)
        ensures
            r.server@ == "[REDACTED]"@,
            r.mapped_address == Some(ip),
            r.reachable,
    {
        StunResult { server: "[REDACTED]".to_owned(), mapped_address: Some(ip), reachable: true }
    }
}

/// IP exposure
#[derive(Debug, Clone)]
pub struct IpExposure {
    /// The server that saw the address.
    pub source: String,
    /// The address.
    pub ip: IpAddr,
    /// Whether the address is one of a VPN.
    pub is_vpn_ip: bool,
}

/// The contents of an [`IpExposure`].
pub struct ExposureView {
    /// The server that saw the address.
    pub source: Seq<char>,
    /// The address.
    pub ip: IpAddr,
    /// Whether the address is one of a VPN.
    pub is_vpn_ip: bool,
}

impl View for IpExposure {
    type V = ExposureView;

    open spec fn view(&self) -> ExposureView {
        ExposureView { source: self.source@, ip: self.ip, is_vpn_ip: self.is_vpn_ip }
    }
}

/// STUN error
#[derive(Debug, Clone)]
pub enum StunError {
    /// The server could not be reached.
    ConnectionFailed(String),
    /// The server did not answer in time.
    Timeout,
    /// The answer is of no use.
    InvalidResponse,
}

impl StunError {
    /// The error in words.
    pub open spec fn words(self) -> Seq<char> {
        match self {
            StunError::ConnectionFailed(m) => "Connection failed: "@ + m@,
            StunError::Timeout => "Timeout"@,
            StunError::InvalidResponse => "Invalid response"@,
        }
    }

    /// The error in words.
    pub fn to_string(&self) -> (r: String)
        ensures
            r@ == self.words(),
    {
        match self {
            StunError::ConnectionFailed(m) => text::joined("Connection failed: ", m.as_str()),
            StunError::Timeout => "Timeout".to_owned(),
            StunError::InvalidResponse => "Invalid response".to_owned(),
        }
    }
}

/// mDNS protection: prevents local hostname leakage via mDNS
pub struct MdnsProtection {
    /// Block mDNS queries
    pub block_mdns: bool,
}

impl Default for MdnsProtection {
    fn default() -> (r: MdnsProtection)
        ensures
            r.block_mdns,
    {
        Self::new()
    }
}

impl MdnsProtection {
    /// Create new mDNS protection
    pub fn new() -> (r: MdnsProtection)
        ensures
            r.block_mdns,
    {
        MdnsProtection { block_mdns: true }
    }

    /// Block mDNS traffic
    pub fn block(&self) -> (r: FirewallRules)
        ensures
            r == (FirewallRules {
                block_direct_udp: true,
                allow_stun_only: false,
                allow_turn_only: false,
            }),
    {
        FirewallRules { block_direct_udp: true, allow_stun_only: false, allow_turn_only: false }
    }
}

} // verus!
