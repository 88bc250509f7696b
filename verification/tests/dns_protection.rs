use gptl_routing::address::IpAddr;
use gptl_routing::dns_protection::{
    build_dns_query, dns_query, endpoint_host, frame_query, framed_length, parse_dns_response,
    serialize_response, CacheEntry, DnsCache, DnsError, DnsFirewall, DnsGuard, DoTResolver,
    DohReply, DotEvent, DotStep, InterceptAction, InterceptRule, Ipv6Policy, Resolution,
    SystemDnsManager, TransparentProxyDetector,
};
use gptl_routing::names::NameMap;
use gptl_routing::time::{Duration, Instant};
use gptl_routing::RoutingConfig;

fn at(secs: u64) -> Instant {
    Instant { nanos: secs * 1_000_000_000 }
}

fn guard() -> DnsGuard {
    DnsGuard::new(RoutingConfig::default())
}

fn firewall() -> DnsFirewall {
    DnsFirewall {
        blocked_servers: Vec::new(),
        allowed_servers: Vec::new(),
        intercept_rules: Vec::new(),
    }
}

/// One answer, 93.184.216.34, for example.com.
fn example_response() -> Vec<u8> {
    vec![
        0x00, 0x01, // Transaction ID
        0x81, 0x80, // Flags: response, recursion available
        0x00, 0x01, // Questions: 1
        0x00, 0x01, // Answers: 1
        0x00, 0x00, // Authority: 0
        0x00, 0x00, // Additional: 0
        // Question section
        0x07, b'e', b'x', b'a', b'm', b'p', b'l', b'e', 0x03, b'c', b'o', b'm',
        0x00, // Null terminator
        0x00, 0x01, // Type A
        0x00, 0x01, // Class IN
        // Answer section
        0xC0, 0x0C, // Name pointer to question
        0x00, 0x01, // Type A
        0x00, 0x01, // Class IN
        0x00, 0x00, 0x00, 0x3C, // TTL: 60 seconds
        0x00, 0x04, // RDLENGTH: 4
        0x5D, 0xB8, 0xD8, 0x22, // IP: 93.184.216.34
    ]
}

#[test]
fn test_dns_cache() {
    let cache = DnsCache { entries: NameMap::new(), max_ttl: Duration::from_secs(300) };
    assert_eq!(cache.entries.len(), 0);

    // Test cache entry creation
    let entry = CacheEntry { addresses: vec![IpAddr::v4(1, 2, 3, 4)], expires_at: at(300) };

    assert!(entry.expires_at > at(0));
}

#[test]
fn test_dns_guard() {
    let guard = guard();
    assert!(!guard.doh_resolver.endpoints.is_empty());
    assert!(guard.configure_leak_prevention().is_ok());
    assert!(guard.test_for_leak().is_none());
}

#[test]
fn test_dns_query_building() {
    let query = build_dns_query("example.com").unwrap();

    // Verify header
    assert_eq!(query.len() > 12, true);

    // Verify flags (standard query, recursion desired)
    assert_eq!(query[2], 0x01);
    assert_eq!(query[3], 0x00);
}

#[test]
fn a_query_byte_by_byte() {
    assert_eq!(
        dns_query("ab.c", 0xBEEF).unwrap(),
        vec![
            0xBE, 0xEF, 0x01, 0x00, 0x00, 0x01, 0x00, 0x00, 0x00, 0x00, 0x00, 0x00, 2, b'a', b'b',
            1, b'c', 0, 0x00, 0x01, 0x00, 0x01,
        ]
    );
}

#[test]
fn test_dns_response_parsing() {
    let addresses = parse_dns_response(&example_response()).unwrap();
    assert_eq!(addresses.len(), 1);
    assert_eq!(addresses[0], IpAddr::v4(93, 184, 216, 34));
}

#[test]
fn test_dot_resolver() {
    let resolver = DoTResolver::new();

    // Test resolver creation
    assert!(!resolver.endpoints.is_empty());
    assert_eq!(resolver.tls_config.alpn[0], "dot");
}

#[test]
fn test_dns_firewall() {
    let mut firewall = firewall();

    // Test blocking ISP DNS
    firewall.block_isp_dns(vec![IpAddr::v4(8, 8, 8, 8)]);
    assert_eq!(firewall.blocked_servers.len(), 1);

    // Test VPN-only mode
    firewall.allow_only_vpn(vec![IpAddr::v4(10, 0, 0, 1)]);
    assert_eq!(firewall.allowed_servers.len(), 1);
}

#[test]
fn test_system_dns_manager() {
    let manager = SystemDnsManager::new(vec![IpAddr::v4(10, 0, 0, 1)]);
    assert_eq!(manager.vpn_servers.len(), 1);
}

#[test]
fn test_plain_dns_query_blocked_by_firewall_rule() {
    let mut guard = guard();

    // Add a block rule
    guard.firewall.intercept_rules.push(InterceptRule {
        pattern: "blocked-domain".to_string(),
        action: InterceptAction::Block,
    });

    // resolve_secure checks the firewall before making network calls
    match guard.resolve_secure("blocked-domain.example.com", at(0)) {
        Resolution::Refused(e) => {
            assert_eq!(e.to_string(), "Resource allocation failed: DNS query blocked");
        }
        _ => panic!("query matching a block rule must be rejected before reaching the network"),
    }
    assert!(matches!(guard.resolve_secure("open.example.com", at(0)), Resolution::Ask(_)));
}

#[test]
fn test_dns_query_building_valid_structure() {
    let query = build_dns_query("www.example.org").unwrap();

    // Minimum valid length: 12 header + at least one label + terminator + QTYPE + QCLASS
    assert!(query.len() > 12 + 5, "DNS query too short");

    // Flags byte 2 = 0x01 (recursion desired)
    assert_eq!(query[2], 0x01, "recursion desired flag must be set");
    // Question count = 1
    assert_eq!(query[4], 0x00);
    assert_eq!(query[5], 0x01);
}

#[test]
fn test_dns_query_building_very_long_label_rejected() {
    // Labels > 63 characters are invalid
    let long_label = "a".repeat(64);
    let domain = format!("{}.com", long_label);
    let result = build_dns_query(&domain);
    assert!(result.is_err(), "label longer than 63 characters must be rejected");
    assert!(build_dns_query(&format!("{}.com", "a".repeat(63))).is_ok());
}

#[test]
fn test_dns_response_parsing_malformed_too_short() {
    // Fewer than 12 bytes → invalid header
    let malformed = vec![0x00, 0x01, 0x81, 0x80, 0x00, 0x01];
    let result = parse_dns_response(&malformed);
    assert!(result.is_err(), "DNS response shorter than 12 bytes must be rejected");
}

#[test]
fn test_dns_response_parsing_no_answers_returns_error() {
    // Valid header with 0 answers → parse_dns_response must return Err
    let response = vec![
        0x00, 0x01, // Transaction ID
        0x81, 0x80, // Flags: response
        0x00, 0x01, // Questions: 1
        0x00, 0x00, // Answers: 0
        0x00, 0x00, // Authority: 0
        0x00, 0x00, // Additional: 0
        // Question (minimal)
        0x00, // empty QNAME
        0x00, 0x01, // QTYPE A
        0x00, 0x01, // QCLASS IN
    ];

    let result = parse_dns_response(&response);
    assert!(result.is_err(), "DNS response with no answer records must return Err");
}

#[test]
fn test_dns_cache_prevents_duplicate_network_calls() {
    let mut guard = guard();

    // Manually seed the cache with a known entry
    guard.cache.entries.insert(
        "cached.example.com",
        CacheEntry { addresses: vec![IpAddr::v4(93, 184, 216, 34)], expires_at: at(300) },
    );

    // resolve_secure should return cached data without hitting the network
    match guard.resolve_secure("cached.example.com", at(0)) {
        Resolution::Cached(data) => {
            // Serialized IPv4: 4 bytes for 93.184.216.34
            assert_eq!(data.len(), 4, "cached IPv4 must serialize to 4 bytes");
            assert_eq!(data, vec![93, 184, 216, 34]);
        }
        _ => panic!("valid cached entry must return Ok without a network request"),
    }
    // An entry does not outlive its time.
    assert!(matches!(guard.resolve_secure("cached.example.com", at(300)), Resolution::Ask(_)));
    guard.clean_cache(at(300));
    assert_eq!(guard.cache.entries.len(), 0);
}

#[test]
fn test_dns_firewall_block_isp_servers_accumulates() {
    let mut firewall = firewall();

    let servers =
        vec![IpAddr::v4(8, 8, 8, 8), IpAddr::v4(8, 8, 4, 4), IpAddr::v4(1, 1, 1, 1)];
    firewall.block_isp_dns(servers);
    assert_eq!(
        firewall.blocked_servers.len(),
        3,
        "all provided ISP servers must be added to blocked list"
    );
}

#[test]
fn a_reply_is_kept_in_the_cache() {
    let mut guard = guard();
    let r = guard.finish_resolution("example.com", DohReply::Body(example_response()), at(10));
    assert_eq!(r.unwrap(), vec![93, 184, 216, 34]);
    assert!(matches!(guard.resolve_secure("example.com", at(11)), Resolution::Cached(_)));
    let failed = guard.finish_resolution("other.com", DohReply::Failed, at(10));
    assert!(failed.is_err());
    assert!(matches!(guard.resolve_secure("other.com", at(11)), Resolution::Ask(_)));
}

#[test]
fn requests_carry_the_query() {
    let guard = guard();
    match guard.resolve_with("ab.c", 7, at(0)) {
        Resolution::Ask(request) => {
            assert_eq!(request.body, dns_query("ab.c", 7).unwrap());
            assert_eq!(request.endpoint, guard.doh_resolver.endpoints[0]);
        }
        _ => unreachable!(),
    }
}

#[test]
fn random_transactions_differ_sooner_or_later() {
    let ids: Vec<(u8, u8)> = (0..20)
        .map(|_| {
            let q = build_dns_query("a.b").unwrap();
            (q[0], q[1])
        })
        .collect();
    assert!(ids.iter().any(|id| *id != ids[0]));
}

#[test]
fn addresses_in_bytes() {
    let mut expected = vec![1, 2, 3, 4];
    expected.extend_from_slice(&[0; 15]);
    expected.push(1);
    assert_eq!(serialize_response(&vec![IpAddr::v4(1, 2, 3, 4), IpAddr::V6(1)]), expected);
    assert!(serialize_response(&vec![]).is_empty());
}

#[test]
fn rules_match_anywhere_in_a_query() {
    let mut firewall = firewall();
    assert!(firewall.check_query("x").is_none());
    for (pattern, action) in
        [("ads", InterceptAction::Block), ("log", InterceptAction::Log)]
    {
        firewall.intercept_rules.push(InterceptRule { pattern: pattern.to_string(), action });
    }
    assert!(matches!(firewall.check_query("my-ads.com"), Some(InterceptAction::Block)));
    assert!(matches!(firewall.check_query("catalog.com"), Some(InterceptAction::Log)));
    assert!(firewall.check_query("plain.com").is_none());
}

#[test]
fn dot_goes_from_endpoint_to_endpoint() {
    let resolver = DoTResolver::new();
    assert!(matches!(resolver.start(), DotStep::Next(0)));
    let mut nowhere = DoTResolver::new();
    nowhere.endpoints.clear();
    assert!(matches!(
        nowhere.start(),
        DotStep::Failed(DnsError::ResolutionFailed(m)) if m == "All endpoints failed"
    ));
    assert!(matches!(resolver.take(0, DotEvent::Unreachable), DotStep::Next(1)));
    assert!(matches!(resolver.take(2, DotEvent::Unreachable), DotStep::Failed(_)));
    let addresses = resolver
        .resolve(vec![DotEvent::Unreachable, DotEvent::Response(example_response())])
        .unwrap();
    assert_eq!(addresses, vec![IpAddr::v4(93, 184, 216, 34)]);
    let e = resolver
        .resolve(vec![DotEvent::Unreachable, DotEvent::Unreachable, DotEvent::Unreachable])
        .unwrap_err();
    assert!(matches!(e, DnsError::ResolutionFailed(_)));
}

#[test]
fn dot_messages_are_framed() {
    assert_eq!(frame_query(&vec![7, 8, 9]), vec![0, 3, 7, 8, 9]);
    assert_eq!(framed_length(&[1, 2]), 258);
    assert_eq!(endpoint_host("1.1.1.1:853"), "1.1.1.1");
}

#[test]
fn system_servers_and_detectors() {
    let mut manager = SystemDnsManager::new(vec![IpAddr::v4(10, 0, 0, 1)]);
    assert!(manager.apply_vpn_dns().is_ok());
    assert!(manager.restore_original_dns().is_ok());
    let detector = TransparentProxyDetector::new();
    assert_eq!(detector.indicators.len(), 2);
    assert!(detector.detect().is_none());
    let mut guard = guard();
    guard.set_ipv6_policy(Ipv6Policy::Block);
    assert_eq!(guard.ipv6_policy, Ipv6Policy::Block);
}

#[test]
fn dns_errors_in_words() {
    assert_eq!(
        DnsError::ResolutionFailed("x".to_string()).to_string(),
        "Resolution failed: x"
    );
    assert_eq!(DnsError::TlsError("x".to_string()).to_string(), "TLS error: x");
    assert_eq!(DnsError::Timeout.to_string(), "Timeout");
}

#[test]
fn a_cleaned_cache_is_limited() {
    let mut guard = DnsGuard::new(RoutingConfig::default());
    let entry = |seconds: u64| CacheEntry { addresses: Vec::new(), expires_at: at(seconds) };
    for i in 0..10_002 {
        guard.cache.entries.insert(&i.to_string(), entry(1_000 - i % 7));
    }
    guard.cache.entries.insert("gone", entry(5));
    guard.cache.entries.insert("first", entry(11));
    guard.cache.entries.insert("next", entry(12));
    guard.clean_cache(at(10));
    assert_eq!(guard.cache.entries.len(), 10_000);
    assert!(!guard.cache.entries.contains("gone"));
    assert!(!guard.cache.entries.contains("first"));
    assert!(!guard.cache.entries.contains("next"));
    assert!(guard.cache.entries.contains("0"));
}
