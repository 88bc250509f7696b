//! Secure routing core with defenses against:
//! - BGP hijacking attacks (RAPTOR)
//! - Guard discovery attacks (Overlier-Syverson)
//! - Sybil attacks
//! - Sniper attacks (resource exhaustion)
//! - Timing attacks
//! - DNS leakage
//! - WebRTC leakage
//!
//! together with circuit management: health monitoring, pooling, rotation and
//! failover.

pub mod address;
pub mod bgp_protection;
pub mod circuit;
pub mod digest;
pub mod dns_protection;
pub mod failover;
pub mod guard_management;
pub mod maps;
pub mod names;
pub mod random;
pub mod ratio;
pub mod reading;
pub mod relay_graph;
pub mod resource_protection;
pub mod routing;
pub mod rpki_rtr;
pub mod sybil_defense;
pub mod text;
pub mod time;
pub mod transport_bridge;
pub mod webrtc_protection;
pub mod wire;

pub use circuit::{
    create_circuit_manager, create_circuit_manager_with_pool, CircuitBuilder, CircuitHandle,
    CircuitHealthMonitor, CircuitId, CircuitManager, CircuitManagerBuilder, CircuitManagerConfig,
    CircuitManagerEvent, CircuitManagerStatistics, CircuitPool, CircuitPoolConfig,
    HealthMonitorConfig, HealthStatistics, HealthStatus, PoolCircuit, PoolCircuitState, PoolError,
    PoolEvent, PoolStatistics, RetireReason, RotationEvent, RotationPolicy, RotationStatistics,
    RotationTrigger,
};
pub use failover::{
    CircuitInfo, CircuitStatus, FailoverConfig, FailoverError, FailoverEvent, FailoverManager,
    FailoverResult, FailoverStatistics, FailureType,
};
pub use routing::{ExtendedRoutingConfig, RoutingCircuitBuilder, RoutingManager};

use crate::address::IpAddr;
use vstd::prelude::*;
use vstd::string::*;

verus! {

/// Routing configuration
#[derive(Debug, Clone, Copy, PartialEq, Eq, Structural)]
pub struct RoutingConfig {
    /// Enable BGP protection
    pub bgp_protection: bool,
    /// Enable guard management
    pub guard_management: bool,
    /// Enable resource protection
    pub resource_protection: bool,
    /// Enable DNS protection
    pub dns_protection: bool,
    /// Enable WebRTC protection
    pub webrtc_protection: bool,
    /// Enable Sybil defense
    pub sybil_defense: bool,
    /// Security level
    pub security_level: SecurityLevel,
}

impl Default for RoutingConfig {
    /// Every protection on, at the enhanced level.
    fn default() -> (r: RoutingConfig)
        ensures
            r == (RoutingConfig {
                bgp_protection: true,
                guard_management: true,
                resource_protection: true,
                dns_protection: true,
                webrtc_protection: true,
                sybil_defense: true,
                security_level: SecurityLevel::Enhanced,
            }),
    {
        RoutingConfig {
            bgp_protection: true,
            guard_management: true,
            resource_protection: true,
            dns_protection: true,
            webrtc_protection: true,
            sybil_defense: true,
            security_level: SecurityLevel::Enhanced,
        }
    }
}

/// Security levels
#[derive(Debug, Clone, Copy, PartialEq, Eq, Structural)]
pub enum SecurityLevel {
    /// One layer of guards.
    Standard,
    /// Two layers of guards.
    Enhanced,
    /// Three layers of guards.
    Maximum,
}

/// Path through the network
#[derive(Debug)]
pub struct Path {
    /// Guard nodes
    pub guards: Vec<GuardInfo>,
    /// Destination
    pub destination: IpAddr,
}

/// Guard information
#[derive(Debug)]
pub struct GuardInfo {
    /// Identity of the guard.
    pub identity: String,
    /// Network address of the guard.
    pub address: String,
    /// Bandwidth of the guard.
    pub bandwidth: u64,
    /// The layer that the guard serves in.
    pub layer: GuardLayer,
}

impl Clone for GuardInfo {
    fn clone(&self) -> (r: GuardInfo)
        ensures
            r == *self,
    {
        GuardInfo {
            identity: self.identity.clone(),
            address: self.address.clone(),
            bandwidth: self.bandwidth,
            layer: self.layer,
        }
    }
}

/// The layers of guards.
#[derive(Debug, Clone, Copy, PartialEq, Eq, Hash, Structural)]
pub enum GuardLayer {
    /// Entry guards.
    First,
    /// Middle guards (vanguards).
    Second,
    /// Additional protection.
    Third,
}

/// Proof of work for resource allocation
#[derive(Debug, Clone)]
pub struct ProofOfWork {
    /// Target difficulty (number of required leading zero bits in `hash`).
    pub difficulty: u32,
    /// Caller-chosen circuit identifier mixed into the hash input. The verifier
    /// recomputes `SHA256(circuit_id || nonce)` and rejects any proof whose
    /// submitted `hash` does not match.
    pub circuit_id: u32,
    /// Brute-force counter found by the prover.
    pub nonce: u64,
    /// `SHA256(circuit_id || nonce)`, both least significant byte first.
    pub hash: Vec<u8>,
}

/// Circuit allocation
#[derive(Debug, Clone, Copy, PartialEq, Eq, Structural)]
pub struct CircuitAllocation {
    /// The circuit.
    pub circuit_id: u32,
    /// Memory in bytes that the circuit may use.
    pub memory_quota: usize,
    /// Bandwidth that the circuit may use.
    pub bandwidth_quota: u64,
}

/// WebRTC secure configuration
#[derive(Debug, Clone)]
pub struct WebrtcConfig {
    /// STUN servers to use.
    pub stun_servers: Vec<String>,
    /// TURN servers to use.
    pub turn_servers: Vec<String>,
    /// Whether local addresses are kept back.
    pub block_local_ips: bool,
    /// Whether all traffic goes through a relay.
    pub force_relay: bool,
}

/// Routing errors
#[derive(Debug, Clone)]
pub enum RoutingError {
    /// A BGP threat stands on the route.
    BgpThreatDetected(String),
    /// A relay of the path is a Sybil.
    SybilDetected(String),
    /// DNS protection is off.
    DnsProtectionDisabled,
    /// WebRTC protection is off.
    WebrtcProtectionDisabled,
    /// Resource protection is off.
    ResourceProtectionDisabled,
    /// BGP validation failed.
    BgpValidationFailed,
    /// No guard could be selected.
    GuardSelectionFailed(String),
    /// No resources could be allocated.
    ResourceAllocationFailed(String),
    /// Circuit management failed.
    CircuitManagementError(String),
}

/// The contents of a [`RoutingError`].
pub enum RoutingFailure {
    /// A BGP threat stands on the route.
    BgpThreatDetected(Seq<char>),
    /// A relay of the path is a Sybil.
    SybilDetected(Seq<char>),
    /// DNS protection is off.
    DnsProtectionDisabled,
    /// WebRTC protection is off.
    WebrtcProtectionDisabled,
    /// Resource protection is off.
    ResourceProtectionDisabled,
    /// BGP validation failed.
    BgpValidationFailed,
    /// No guard could be selected.
    GuardSelectionFailed(Seq<char>),
    /// No resources could be allocated.
    ResourceAllocationFailed(Seq<char>),
    /// Circuit management failed.
    CircuitManagementError(Seq<char>),
}

impl View for RoutingError {
    type V = RoutingFailure;

    open spec fn view(&self) -> RoutingFailure {
        match self {
            RoutingError::BgpThreatDetected(m) => RoutingFailure::BgpThreatDetected(m@),
            RoutingError::SybilDetected(m) => RoutingFailure::SybilDetected(m@),
            RoutingError::DnsProtectionDisabled => RoutingFailure::DnsProtectionDisabled,
            RoutingError::WebrtcProtectionDisabled => RoutingFailure::WebrtcProtectionDisabled,
            RoutingError::ResourceProtectionDisabled => RoutingFailure::ResourceProtectionDisabled,
            RoutingError::BgpValidationFailed => RoutingFailure::BgpValidationFailed,
            RoutingError::GuardSelectionFailed(m) => RoutingFailure::GuardSelectionFailed(m@),
            RoutingError::ResourceAllocationFailed(m) => RoutingFailure::ResourceAllocationFailed(
                m@,
            ),
            RoutingError::CircuitManagementError(m) => RoutingFailure::CircuitManagementError(m@),
        }
    }
}

impl RoutingFailure {
    /// The failure in words.
    pub open spec fn words(self) -> Seq<char> {
        match self {
            RoutingFailure::BgpThreatDetected(m) => "BGP threat detected: "@ + m,
            RoutingFailure::SybilDetected(m) => "Sybil attack detected: "@ + m,
            RoutingFailure::DnsProtectionDisabled => "DNS protection disabled"@,
            RoutingFailure::WebrtcProtectionDisabled => "WebRTC protection disabled"@,
            RoutingFailure::ResourceProtectionDisabled => "Resource protection disabled"@,
            RoutingFailure::BgpValidationFailed => "BGPv3 validation failed"@,
            RoutingFailure::GuardSelectionFailed(m) => "Guard selection failed: "@ + m,
            RoutingFailure::ResourceAllocationFailed(m) => "Resource allocation failed: "@ + m,
            RoutingFailure::CircuitManagementError(m) => "Circuit management error: "@ + m,
        }
    }
}

impl RoutingError {
    /// The error in words.
    pub fn to_string(&self) -> (r: String)
        ensures
            r@ == self@.words(),
    {
        match self {
            RoutingError::BgpThreatDetected(m) => text::joined(
                "BGP threat detected: ",
                m.as_str(),
            ),
            RoutingError::SybilDetected(m) => text::joined("Sybil attack detected: ", m.as_str()),
            RoutingError::DnsProtectionDisabled => "DNS protection disabled".to_owned(),
            RoutingError::WebrtcProtectionDisabled => "WebRTC protection disabled".to_owned(),
            RoutingError::ResourceProtectionDisabled => "Resource protection disabled".to_owned(),
            RoutingError::BgpValidationFailed => "BGPv3 validation failed".to_owned(),
            RoutingError::GuardSelectionFailed(m) => text::joined(
                "Guard selection failed: ",
                m.as_str(),
            ),
            RoutingError::ResourceAllocationFailed(m) => text::joined(
                "Resource allocation failed: ",
                m.as_str(),
            ),
            RoutingError::CircuitManagementError(m) => text::joined(
                "Circuit management error: ",
                m.as_str(),
            ),
        }
    }
}

} // verus!
