use gptl_routing::address::IpAddr;
use gptl_routing::webrtc_protection::{
    build_stun_binding_request, is_private_ip, parse_stun_response,
    stun_binding_request, BrowserPolicyEnforcer, BrowserType, CandidateType, IceCandidate,
    IcePolicy, MdnsProtection, StunError, StunTurnTester, WebrtcGuard,
};
use gptl_routing::RoutingConfig;

fn guard() -> WebrtcGuard {
    WebrtcGuard::new(RoutingConfig::default())
}

fn candidate(ip: IpAddr, candidate_type: CandidateType, interface: &str) -> IceCandidate {
    IceCandidate {
        ip,
        port: 12345,
        candidate_type,
        interface: interface.to_string(),
        foundation: "1".to_string(),
        priority: 100,
    }
}

fn stun_response(address: u32) -> Vec<u8> {
    let mut response = vec![
        0x01, 0x01, // Binding Success Response
        0x00, 0x0C, // Message length: 12 bytes
        0x21, 0x12, 0xA4, 0x42, // Magic cookie
        0x00, 0x00, 0x00, 0x00, // Transaction ID (part 1)
        0x00, 0x00, 0x00, 0x00, // Transaction ID (part 2)
        0x00, 0x00, 0x00, 0x00, // Transaction ID (part 3)
        // XOR-MAPPED-ADDRESS attribute
        0x00, 0x20, // Attribute type: XOR-MAPPED-ADDRESS
        0x00, 0x08, // Attribute length: 8 bytes
        0x00, 0x01, // Reserved + Family (IPv4)
        0x00, 0x00, // Port XOR'd
        0x00, 0x00, 0x00, 0x00, // IP XOR'd with magic cookie
    ];
    let xor_ip = address ^ 0x2112A442;
    response[28..32].copy_from_slice(&xor_ip.to_be_bytes());
    response
}

#[test]
fn test_ice_candidate_filtering() {
    let candidate = candidate(IpAddr::v4(192, 168, 1, 1), CandidateType::Host, "eth0");

    assert!(candidate.is_vpn_address());
}

#[test]
fn test_browser_configs() {
    let firefox = BrowserPolicyEnforcer::new(BrowserType::Firefox);
    let config = firefox.generate_config();

    assert!(!config.preferences.is_empty());
}

#[test]
fn test_webrtc_guard() {
    let guard = guard();

    let secure_config = guard.get_secure_config().unwrap();
    assert!(secure_config.force_relay);
}

#[test]
fn test_candidate_filtering() {
    let guard = guard();

    let candidates = vec![
        candidate(IpAddr::v4(192, 168, 1, 1), CandidateType::Host, "eth0"),
        candidate(IpAddr::v4(1, 2, 3, 4), CandidateType::Relay, "tun0"),
    ];

    let filtered = guard.filter_candidates(candidates);
    // With RelayOnly policy, only relay candidates should pass
    assert_eq!(filtered.len(), 1);
    assert_eq!(filtered[0].candidate_type, CandidateType::Relay);
}

#[test]
fn test_stun_request_building() {
    let request = build_stun_binding_request();

    // Verify STUN message structure
    assert_eq!(request.len(), 20); // Header only
    assert_eq!(request[0], 0x00); // Message type high byte
    assert_eq!(request[1], 0x01); // Message type low byte (Binding Request)
    assert_eq!(&request[4..8], &[0x21, 0x12, 0xA4, 0x42]); // Magic cookie
}

#[test]
fn transactions_are_random() {
    let first = build_stun_binding_request();
    assert!((0..5).any(|_| build_stun_binding_request() != first));
    let fixed = stun_binding_request(&[9; 12]);
    assert_eq!(&fixed[8..20], &[9; 12]);
    assert_eq!(&fixed[2..4], &[0, 0]);
}

#[test]
fn test_stun_response_parsing() {
    // A valid STUN response with XOR-MAPPED-ADDRESS 1.2.3.4
    let response = stun_response(0x01020304);

    let ip = parse_stun_response(&response).unwrap();
    assert_eq!(ip, IpAddr::v4(1, 2, 3, 4));
}

#[test]
fn stun_responses_that_are_none() {
    assert!(matches!(parse_stun_response(&[1, 1, 0]), Err(StunError::InvalidResponse)));
    let mut wrong = stun_response(1);
    wrong[0] = 0;
    assert!(matches!(parse_stun_response(&wrong), Err(StunError::InvalidResponse)));
    let mut other = stun_response(1);
    other[21] = 0x99;
    assert!(matches!(parse_stun_response(&other), Err(StunError::InvalidResponse)));
    // A message that claims more than there is runs off its end.
    let mut long = stun_response(1);
    long[21] = 0x99;
    long[3] = 0x40;
    assert!(matches!(parse_stun_response(&long), Err(StunError::InvalidResponse)));
    let mut bare = stun_response(1);
    bare.truncate(20);
    bare[3] = 4;
    assert!(matches!(parse_stun_response(&bare), Err(StunError::InvalidResponse)));
}

#[test]
fn long_addresses_are_masked_by_cookie_and_transaction() {
    let head = [1, 1, 0, 24, 0x21, 0x12, 0xA4, 0x42];
    let attribute = [0, 0x20, 0, 20, 0, 2, 0, 0];
    let mut response = head.to_vec();
    response.extend([0; 12]);
    response.extend(attribute);
    response.extend([0x21, 0x12, 0xA4, 0x42]);
    response.extend([0; 12]);
    assert_eq!(parse_stun_response(&response).unwrap(), IpAddr::V6(0));

    // The last byte is masked by that of the transaction.
    response[19] = 0x0F;
    assert_eq!(parse_stun_response(&response).unwrap(), IpAddr::V6(0x0F));
}

#[test]
fn masked_addresses_are_preferred() {
    let mut response = vec![1, 1, 0, 24, 0x21, 0x12, 0xA4, 0x42];
    response.extend([0; 12]);
    response.extend([0, 1, 0, 8, 0, 1, 0, 0, 9, 9, 9, 9]);
    let plain = response.len();
    response.extend([0, 0x20, 0, 8, 0, 1, 0, 0, 0x20, 0x10, 0xA7, 0x46]);
    assert_eq!(parse_stun_response(&response).unwrap(), IpAddr::v4(1, 2, 3, 4));
    response.truncate(plain);
    response[3] = 12;
    assert_eq!(parse_stun_response(&response).unwrap(), IpAddr::v4(9, 9, 9, 9));
}

#[test]
fn test_private_ip_detection() {
    // RFC 1918 ranges
    assert!(is_private_ip(&IpAddr::v4(10, 0, 0, 1)));
    assert!(is_private_ip(&IpAddr::v4(172, 16, 0, 1)));
    assert!(is_private_ip(&IpAddr::v4(192, 168, 1, 1)));

    // Carrier-grade NAT
    assert!(is_private_ip(&IpAddr::v4(100, 64, 0, 1)));

    // Public IPs
    assert!(!is_private_ip(&IpAddr::v4(8, 8, 8, 8)));
    assert!(!is_private_ip(&IpAddr::v4(1, 1, 1, 1)));
}

#[test]
fn test_browser_policy_generation() {
    // Test Firefox
    let firefox = BrowserPolicyEnforcer::new(BrowserType::Firefox);
    let config = firefox.generate_config();
    assert!(config.preferences.iter().any(|(k, _)| k.contains("peerconnection")));

    // Test Chrome
    let chrome = BrowserPolicyEnforcer::new(BrowserType::Chrome);
    let config = chrome.generate_config();
    assert!(config.preferences.iter().any(|(k, _)| k.contains("webrtc")));

    // Test Brave
    let brave = BrowserPolicyEnforcer::new(BrowserType::Brave);
    let config = brave.generate_config();
    assert!(!config.preferences.is_empty());
}

#[test]
fn test_ice_policy_update() {
    let mut guard = guard();

    // Change policy
    guard.set_ice_policy(IcePolicy::NoHost);

    // Verify policy changed
    assert_eq!(guard.ice_policy, IcePolicy::NoHost);
}

#[test]
fn test_webrtc_disable() {
    let mut guard = guard();

    assert!(guard.disable_webrtc().is_ok());

    // Verify TURN servers cleared
    assert!(guard.turn_config.servers.is_empty());
}

#[test]
fn test_mdns_protection() {
    let protection = MdnsProtection::new();
    let rules = protection.block();

    assert!(rules.block_direct_udp);
    assert!(!rules.allow_stun_only);
}

#[test]
fn test_firewall_rules() {
    let guard = guard();

    let rules = guard.block_non_proxied_udp();
    assert!(rules.block_direct_udp);
}

#[test]
fn test_stun_tester_creation() {
    let tester = StunTurnTester::new();
    assert!(!tester.servers.is_empty());
    assert!(tester.servers.iter().any(|s| s.contains("stun")));
}

#[test]
fn test_local_ip_candidates_filtered_in_relay_only_mode() {
    let mut guard = guard();
    // Default policy is RelayOnly — local Host candidates must be filtered
    guard.initialize().unwrap();

    let candidates = vec![
        candidate(IpAddr::v4(192, 168, 0, 5), CandidateType::Host, "tun0"),
        candidate(IpAddr::v4(10, 8, 0, 1), CandidateType::Host, "tun1"),
    ];

    let filtered = guard.filter_candidates(candidates);
    assert!(
        filtered.is_empty(),
        "all Host candidates must be filtered out in RelayOnly mode, got {}",
        filtered.len()
    );
}

#[test]
fn test_non_relay_candidates_blocked_in_relay_only_mode() {
    let guard = guard();
    // Default policy is RelayOnly

    let candidates = vec![
        candidate(IpAddr::v4(8, 8, 8, 8), CandidateType::ServerReflexive, "tun0"),
        candidate(IpAddr::v4(1, 2, 3, 4), CandidateType::Relay, "tun0"),
    ];

    let filtered = guard.filter_candidates(candidates);
    // Only the Relay candidate should survive
    assert_eq!(filtered.len(), 1, "only Relay candidates must survive in RelayOnly mode");
    assert_eq!(filtered[0].candidate_type, CandidateType::Relay);
}

#[test]
fn test_filter_candidates_no_host_mode_allows_stun_and_relay() {
    let mut guard = guard();
    guard.set_ice_policy(IcePolicy::NoHost);

    let candidates = vec![
        candidate(IpAddr::v4(1, 2, 3, 4), CandidateType::Host, "tun0"),
        candidate(IpAddr::v4(5, 6, 7, 8), CandidateType::ServerReflexive, "tun1"),
        candidate(IpAddr::v4(9, 10, 11, 12), CandidateType::Relay, "tun2"),
    ];

    let filtered = guard.filter_candidates(candidates);
    assert_eq!(
        filtered.len(),
        2,
        "NoHost mode must allow STUN and Relay but block Host candidates"
    );
    assert!(
        filtered.iter().all(|c| c.candidate_type != CandidateType::Host),
        "no Host candidate must survive NoHost filtering"
    );
}

#[test]
fn test_vpn_address_detection_private_ranges() {
    // 10.x.x.x
    let c1 = candidate(IpAddr::v4(10, 0, 0, 1), CandidateType::Host, "");
    assert!(c1.is_vpn_address(), "10.0.0.1 must be detected as VPN/private address");

    // 172.16.x.x
    let c2 = candidate(IpAddr::v4(172, 20, 0, 1), CandidateType::Host, "");
    assert!(c2.is_vpn_address(), "172.20.0.1 must be detected as VPN/private address");

    // Public IP — must not be flagged as VPN
    let c3 = candidate(IpAddr::v4(203, 0, 113, 5), CandidateType::Host, "");
    assert!(
        !c3.is_vpn_address(),
        "203.0.113.5 is a public IP and must not be a VPN address"
    );
}

#[test]
fn test_is_private_ip_covers_cgnat_range() {
    // 100.64.0.0/10 is carrier-grade NAT
    assert!(
        is_private_ip(&IpAddr::v4(100, 64, 0, 1)),
        "CGNAT 100.64.x.x must be treated as private"
    );
    assert!(
        is_private_ip(&IpAddr::v4(100, 127, 255, 255)),
        "CGNAT upper bound must be treated as private"
    );
    assert!(
        !is_private_ip(&IpAddr::v4(100, 128, 0, 0)),
        "100.128.0.0 is outside CGNAT range and must not be private"
    );
}

#[test]
fn blocked_interfaces_let_nothing_through() {
    let mut guard = guard();
    guard.set_ice_policy(IcePolicy::All);
    guard.initialize().unwrap();
    let relay = candidate(IpAddr::v4(1, 2, 3, 4), CandidateType::Relay, "eth0");
    assert!(guard.filter_candidates(vec![relay.clone()]).is_empty());
    let tunnel = IceCandidate { interface: "tun0".to_string(), ..relay };
    assert_eq!(guard.filter_candidates(vec![tunnel]).len(), 1);
}

#[test]
fn exposure_of_mapped_addresses() {
    let tester = StunTurnTester::new();
    let mut mapped = vec![None; tester.servers.len()];
    mapped[0] = Some(IpAddr::v4(10, 0, 0, 1));
    mapped[1] = Some(IpAddr::v4(8, 8, 8, 8));
    let exposures = tester.test_ip_exposure(&mapped);
    assert_eq!(exposures.len(), 2);
    assert!(exposures[0].is_vpn_ip);
    assert!(!exposures[1].is_vpn_ip);
    assert_eq!(exposures[1].ip, IpAddr::v4(8, 8, 8, 8));
}
