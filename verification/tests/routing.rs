use gptl_routing::address::IpAddr;
use gptl_routing::bgp_protection::{BgpAlertType, BgpThreat, BgpUpdate};
use gptl_routing::dns_protection::Resolution;
use gptl_routing::resource_protection::PowGenerator;
use gptl_routing::routing::Protection;
use gptl_routing::text;
use gptl_routing::time::Instant;
use gptl_routing::{
    CircuitBuilder, ExtendedRoutingConfig, GuardInfo, GuardLayer, RoutingCircuitBuilder,
    RoutingConfig, RoutingError, RoutingManager, SecurityLevel,
};

fn now() -> Instant {
    Instant { nanos: 0 }
}

fn manager() -> RoutingManager {
    RoutingManager::new(RoutingConfig::default(), now())
}

fn guard(identity: &str) -> GuardInfo {
    GuardInfo {
        identity: identity.to_string(),
        address: "10.0.0.1:9001".to_string(),
        bandwidth: 10,
        layer: GuardLayer::First,
    }
}

fn no_measure(_: &BgpThreat) -> String {
    String::new()
}

#[test]
fn a_path_leads_through_the_selected_guards() {
    let mut manager = manager();
    let destination = IpAddr::v4(1, 2, 3, 4);
    let e = manager.select_path(&destination, "1.2.3.4", no_measure, now()).unwrap_err();
    assert_eq!(e.to_string(), "Guard selection failed: No guards available");
    manager
        .guard_manager
        .as_mut()
        .unwrap()
        .add_guard(guard("g"), GuardLayer::First, now())
        .unwrap();
    let path = manager.select_path(&destination, "1.2.3.4", no_measure, now()).unwrap();
    assert_eq!(path.destination, destination);
    assert_eq!(path.guards.len(), 1);
    assert_eq!(path.guards[0].identity, "g");
    // A guard that is blocked is a Sybil.
    manager.sybil_shield.as_mut().unwrap().blocked_relays.insert("g".to_string());
    let e = manager.select_path(&destination, "1.2.3.4", no_measure, now()).unwrap_err();
    assert_eq!(e.to_string(), "Sybil attack detected: g");
    manager.sybil_shield = None;
    assert!(manager.select_path(&destination, "1.2.3.4", no_measure, now()).is_ok());
    manager.guard_manager = None;
    let path = manager.select_path(&destination, "1.2.3.4", no_measure, now()).unwrap();
    assert!(path.guards.is_empty());
}

#[test]
fn a_threat_on_the_route_is_told() {
    let mut manager = manager();
    let update = BgpUpdate {
        timestamp: now(),
        prefix: "9.9.9.0/24".to_string(),
        origin_as: 9,
        as_path: vec![9],
    };
    manager.bgp_guard.as_mut().unwrap().report_anomaly(update, BgpAlertType::Anomaly);
    let measure = |t: &BgpThreat| match t {
        BgpThreat::ShortLived { duration, .. } => format!("{}ns", duration.nanos),
        _ => String::new(),
    };
    let e = manager
        .select_path(&IpAddr::v4(1, 2, 3, 4), "1.2.3.4", measure, now())
        .unwrap_err();
    assert_eq!(
        e.to_string(),
        "BGP threat detected: Short-lived prefix announcement: 9.9.9.0/24 (duration: 0ns)"
    );
}

#[test]
fn background_work_is_that_of_what_is_switched_on() {
    let mut manager = manager();
    manager.config.webrtc_protection = false;
    assert_eq!(
        manager.initialize().unwrap(),
        vec![
            Protection::Bgp,
            Protection::Guards,
            Protection::Resources,
            Protection::Dns,
            Protection::Sybil,
        ]
    );
    assert!(!manager.webrtc_guard.as_ref().unwrap().blocked_interfaces.contains("eth0"));
    manager.config.webrtc_protection = true;
    manager.config.guard_management = false;
    manager.dns_guard = None;
    assert_eq!(
        manager.initialize().unwrap(),
        vec![Protection::Bgp, Protection::Resources, Protection::Sybil]
    );
    assert!(manager.webrtc_guard.as_ref().unwrap().blocked_interfaces.contains("eth0"));
}

#[test]
fn protections_that_are_missing_are_errors() {
    let mut manager = manager();
    assert!(manager.protect_webrtc().unwrap().force_relay);
    assert!(matches!(manager.protect_dns("example.com", now()), Resolution::Ask(_)));
    manager.webrtc_guard = None;
    manager.dns_guard = None;
    manager.resource_guard = None;
    assert_eq!(manager.protect_webrtc().unwrap_err().to_string(), "WebRTC protection disabled");
    match manager.protect_dns("example.com", now()) {
        Resolution::Refused(e) => assert_eq!(e.to_string(), "DNS protection disabled"),
        _ => unreachable!(),
    }
    let pow = PowGenerator::new(0).generate(1).unwrap();
    let e = manager.allocate_circuit(pow, now()).unwrap_err();
    assert_eq!(e.to_string(), "Resource protection disabled");
}

#[test]
fn circuits_are_allocated_for_work() {
    let mut manager = manager();
    manager.resource_guard.as_mut().unwrap().pow_verifier.difficulty = 8;
    let pow = PowGenerator::new(8).generate(1).unwrap();
    assert!(manager.allocate_circuit(pow.clone(), now()).is_ok());
    assert!(manager.allocate_circuit(pow, now()).is_err());
}

#[test]
fn routing_errors_in_words() {
    assert_eq!(RoutingError::BgpValidationFailed.to_string(), "BGPv3 validation failed");
    assert_eq!(
        RoutingError::CircuitManagementError("x".to_string()).to_string(),
        "Circuit management error: x"
    );
}

#[test]
fn the_default_builder_names_its_relays() {
    let builder = RoutingCircuitBuilder::new();
    assert_eq!(
        builder.build_circuit(7).unwrap(),
        vec!["guard_7_entry", "middle_7_relay", "exit_7_relay"]
    );
    assert!(builder.test_circuit(&vec![]).unwrap());
    assert!(builder.close_circuit(7).is_ok());
}

#[test]
fn extended_defaults() {
    let config = ExtendedRoutingConfig::default();
    assert!(config.enable_circuit_management);
    assert!(config.routing.sybil_defense);
    assert_eq!(config.routing.security_level, SecurityLevel::Enhanced);
    assert_eq!(config.circuit_pool.max_pool_size, 10);
}

#[test]
fn numbers_and_texts() {
    assert_eq!(text::decimal(0), "0");
    assert_eq!(text::decimal(u64::MAX), u64::MAX.to_string());
    assert_eq!(text::joined("a", "b"), "ab");
    assert!(text::contains("abcabd", "abd"));
    assert!(text::contains("x", ""));
    assert!(!text::contains("ab", "abc"));
}

#[test]
fn protections_that_are_switched_off_are_not_there() {
    let config = RoutingConfig {
        bgp_protection: false,
        guard_management: false,
        resource_protection: false,
        dns_protection: false,
        webrtc_protection: false,
        sybil_defense: false,
        ..RoutingConfig::default()
    };
    let mut manager = RoutingManager::new(config, now());
    assert!(matches!(manager.protect_webrtc(), Err(RoutingError::WebrtcProtectionDisabled)));
    assert!(matches!(
        manager.protect_dns("example.com", now()),
        Resolution::Refused(RoutingError::DnsProtectionDisabled)
    ));
    let pow = PowGenerator::new(0).generate(1).unwrap();
    assert!(matches!(
        manager.allocate_circuit(pow, now()),
        Err(RoutingError::ResourceProtectionDisabled)
    ));
    assert!(manager.initialize().unwrap().is_empty());
    assert!(manager.guard_manager.is_none());
    assert!(manager.bgp_guard.is_none());
    assert!(manager.sybil_shield.is_none());
}
