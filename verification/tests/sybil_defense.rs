use gptl_routing::address::IpAddr;
use gptl_routing::ratio::Ratio;
use gptl_routing::reading::Reading;
use gptl_routing::relay_graph::find_clusters;
use gptl_routing::sybil_defense::{
    trimmed_length, BandwidthAuthority, RelayBehavior, RelayInfo, RelayType, SybilDetector,
    SybilGroup, SybilShield, TrustNetwork,
};
use gptl_routing::time::{Duration, Instant};
use gptl_routing::RoutingConfig;

fn now() -> Instant {
    Instant { nanos: 1_000_000_000 }
}

fn detector() -> SybilDetector {
    SybilDetector { heuristics: vec![], sybil_groups: vec![] }
}

fn shield() -> SybilShield {
    SybilShield::new(RoutingConfig::default())
}

fn relay(identity: &str, address: IpAddr, nickname: &str, fingerprint: &str) -> RelayInfo {
    RelayInfo {
        identity: identity.to_string(),
        address,
        bandwidth: 1_000_000,
        relay_type: RelayType::Guard,
        stake_amount: 1000,
        nickname: nickname.to_string(),
        fingerprint: fingerprint.to_string(),
    }
}

fn score(r: Reading) -> f64 {
    f64::from_bits(r.bits)
}

fn report(shield: &mut SybilShield, identity: &str, behavior: RelayBehavior) {
    if let Some(old) = shield.get_reputation(identity) {
        let old = score(old);
        let new = match behavior {
            RelayBehavior::Success => (old * 0.9 + 0.1).min(1.0),
            RelayBehavior::Failure => old * 0.9,
            RelayBehavior::Suspicious => old * 0.8,
        };
        shield.report_behavior(identity, behavior, Reading { bits: new.to_bits() }, now());
    }
}

#[test]
fn test_subnet_extraction() {
    let v4 = match IpAddr::v4(192, 168, 1, 1) {
        IpAddr::V4(n) => n,
        IpAddr::V6(_) => unreachable!(),
    };
    let subnet = SybilDetector::extract_subnet(v4, 24);
    assert_eq!(subnet, 0xC0A80100); // 192.168.1.0
    assert_eq!(SybilDetector::extract_subnet(v4, 32), 0xC0A80101);
    assert_eq!(SybilDetector::extract_subnet(v4, 1), 0x80000000);
}

#[test]
fn test_sybil_shield() {
    let shield = shield();

    // Should pass verification for new relay
    let result = shield.verify_relay("new-relay").unwrap();
    assert!(result); // Not blocked
}

#[test]
fn test_bandwidth_authority() {
    let authority = BandwidthAuthority::new();

    // Test inflation detection
    assert!(!authority.check_inflation("test-relay", Ratio::new(2, 1)));
}

#[test]
fn test_same_subnet_detection() {
    let detector = detector();

    let relays = vec![
        relay("relay1", IpAddr::v4(192, 168, 1, 1), "relay1", "abc123"),
        relay("relay2", IpAddr::v4(192, 168, 1, 2), "relay2", "def456"),
        relay("relay3", IpAddr::v4(192, 168, 1, 3), "relay3", "ghi789"),
    ];

    let groups = detector.detect_same_subnet(&relays, 24, now());
    assert_eq!(groups.len(), 1); // All in same /24
    assert_eq!(groups[0].members.len(), 3);
    assert_eq!(groups[0].group_id, "subnet-3232235776/24");
    assert_eq!(groups[0].confidence, Ratio::new(7, 10));
    assert_eq!(groups[0].members, vec!["relay1", "relay2", "relay3"]);
}

#[test]
fn subnets_of_two_and_long_addresses_are_no_groups() {
    let detector = detector();
    let relays = vec![
        relay("a", IpAddr::v4(10, 0, 0, 1), "a", "1"),
        relay("b", IpAddr::v4(10, 0, 0, 2), "b", "1"),
        relay("c", IpAddr::V6(1), "c", "1"),
        relay("d", IpAddr::V6(2), "d", "1"),
        relay("e", IpAddr::V6(3), "e", "1"),
    ];
    assert!(detector.detect_same_subnet(&relays, 24, now()).is_empty());
}

#[test]
fn coordinated_relays_share_a_pattern() {
    let detector = detector();
    let mut relays = vec![
        relay("a", IpAddr::v4(10, 0, 0, 1), "nick", "fff"),
        relay("b", IpAddr::v4(11, 0, 0, 1), "kcin", "ggg"),
        relay("c", IpAddr::v4(12, 0, 0, 1), "abcd", "hhh"),
    ];
    let window = Duration { nanos: 0 };
    assert!(detector.detect_coordinated_behavior(&relays, window, now()).is_empty());
    relays.push(relay("d", IpAddr::v4(13, 0, 0, 1), "efgh", "iii"));
    let groups = detector.detect_coordinated_behavior(&relays, window, now());
    assert_eq!(groups.len(), 1);
    assert_eq!(groups[0].group_id, "behavior-1-4-3");
    assert_eq!(groups[0].members, vec!["a", "b", "c", "d"]);
    assert_eq!(groups[0].confidence, Ratio::new(6, 10));
    assert_eq!(groups[0].detected_at, now());
}

fn sybils() -> Vec<RelayInfo> {
    vec![
        relay("sybil1", IpAddr::v4(192, 168, 1, 1), "node1", "aaa"),
        relay("sybil2", IpAddr::v4(192, 168, 1, 2), "node2", "bbb"),
        relay("sybil3", IpAddr::v4(192, 168, 1, 3), "node3", "ccc"),
        relay("sybil4", IpAddr::v4(192, 168, 1, 4), "node4", "ddd"),
    ]
}

#[test]
fn test_graph_based_detection() {
    let detector = detector();

    // Create relays with similar characteristics (potential Sybil group)
    let relays = sybils();

    let groups = detector.detect_graph_based(&relays, now());
    assert!(!groups.is_empty()); // Should detect the Sybil group
    assert_eq!(groups.len(), 1);
    assert!(groups[0].group_id.starts_with("graph-"));
    let mut members = groups[0].members.clone();
    members.sort();
    assert_eq!(members, vec!["sybil1", "sybil2", "sybil3", "sybil4"]);
    assert_eq!(groups[0].confidence, Ratio::new(12, 12));
}

#[test]
fn groups_are_found_apart_and_small_ones_ignored() {
    let mut relays = sybils();
    relays.push(relay("other1", IpAddr::v4(10, 0, 0, 1), "x1", "a"));
    relays.push(relay("other2", IpAddr::v4(10, 0, 0, 2), "x2", "a"));
    relays.push(relay("other3", IpAddr::v4(10, 0, 0, 3), "x3", "a"));
    for i in 0..5u8 {
        relays.push(relay(&format!("late{}", i), IpAddr::v4(10, 9, i, 3), "y7", "a"));
    }
    let found = find_clusters(&relays);
    assert_eq!(found.len(), 2);
    assert_eq!(found[0].members.len(), 4);
    assert_eq!(found[1].members.len(), 5);
    assert_eq!(found[1].density, Ratio::new(20, 20));
    assert!(find_clusters(&[]).is_empty());
}

#[test]
fn groups_come_in_the_order_of_the_list() {
    let mut relays = Vec::new();
    for i in 0..4u8 {
        relays.push(relay(&format!("b{}", i), IpAddr::v4(10, 9, i, 3), "y7", "a"));
        relays.push(relay(&format!("a{}", i), IpAddr::v4(172, 16, i, 3), "x7", "a"));
    }
    let found = find_clusters(&relays);
    assert_eq!(found.len(), 2);
    assert_eq!(found[0].members[0], "b0");
    assert_eq!(found[1].members[0], "a0");
    relays.reverse();
    let groups = detector().detect_graph_based(&relays, now());
    assert_eq!(groups[0].members[0], "a3");
    assert_eq!(groups[1].members[0], "b3");
}

#[test]
fn a_loose_chain_of_relays_is_no_group() {
    // Each relay is tied to the next but not to the one after it.
    let mut relays = sybils();
    relays[0].bandwidth = 1_000_000;
    relays[1].bandwidth = 2_500_000;
    relays[2].bandwidth = 6_000_000;
    relays[3].bandwidth = 15_000_000;
    assert!(find_clusters(&relays).is_empty());
}

#[test]
fn relays_with_one_identity_are_one_node() {
    let mut relays = sybils();
    relays[3].identity = "sybil1".to_string();
    // Three identities are too few.
    assert!(find_clusters(&relays).is_empty());
    relays.push(relay("sybil5", IpAddr::v4(192, 168, 1, 5), "node5", "eee"));
    let found = find_clusters(&relays);
    assert_eq!(found.len(), 1);
    // The doubled identity is linked to itself as well.
    assert_eq!(found[0].density, Ratio::new(13, 12));
}

#[test]
fn test_similarity_calculation() {
    let relay1 = relay("relay1", IpAddr::v4(192, 168, 1, 1), "node1", "abc");
    let relay2 = relay("relay2", IpAddr::v4(192, 168, 1, 2), "node2", "def");

    let similarity = SybilDetector::calculate_similarity(&relay1, &relay2);
    assert!(similarity.exceeds_tenths(5)); // High similarity due to same subnet and bandwidth
    assert_eq!(similarity.num, similarity.den);
}

#[test]
fn similarity_weighs_its_parts() {
    let mut a = relay("a", IpAddr::v4(192, 168, 1, 1), "node1", "abc");
    let mut b = relay("b", IpAddr::v4(192, 169, 1, 1), "other", "def");
    a.bandwidth = 500;
    b.bandwidth = 1000;
    // Only half the bandwidth: 0.15.
    let s = SybilDetector::calculate_similarity(&a, &b);
    assert_eq!((s.num, s.den), (1500, 10000));
    b.address = a.address;
    let s = SybilDetector::calculate_similarity(&a, &b);
    assert_eq!((s.num, s.den), (4500, 10000));
    b.nickname = "node77".to_string();
    let s = SybilDetector::calculate_similarity(&a, &b);
    assert_eq!((s.num, s.den), (8500, 10000));
    assert!(s.exceeds_tenths(8));
    assert_eq!(SybilDetector::calculate_similarity(&b, &a), s);
    a.bandwidth = 0;
    b.bandwidth = 0;
    let s = SybilDetector::calculate_similarity(&a, &b);
    assert_eq!((s.num, s.den), (7, 10));
}

#[test]
fn test_nickname_pattern_detection() {
    assert!(SybilDetector::similar_nicknames("relay1", "relay2"));
    assert!(SybilDetector::similar_nicknames("node001", "node002"));
    assert!(!SybilDetector::similar_nicknames("alice", "bob"));
}

#[test]
fn nicknames_of_numbers_only_have_no_pattern() {
    assert!(!SybilDetector::similar_nicknames("123", "456"));
    assert!(!SybilDetector::similar_nicknames("", ""));
    assert!(SybilDetector::similar_nicknames("a1b2", "a1b"));
    // Numbers of other scripts count as well.
    assert!(SybilDetector::similar_nicknames("node٣", "node²"));
    assert!(!SybilDetector::similar_nicknames("node三", "node"));
    assert_eq!(trimmed_length(&vec![true, false, true, true]), 2);
    assert_eq!(trimmed_length(&vec![true, true]), 0);
    assert_eq!(trimmed_length(&vec![]), 0);
}

#[test]
fn test_reputation_system() {
    let mut shield = shield();

    // Register relay
    let relay_info = relay("test-relay", IpAddr::v4(192, 168, 1, 1), "test", "abc123");

    assert!(shield.register_relay(relay_info, now()).is_ok());

    // Report successful behavior
    report(&mut shield, "test-relay", RelayBehavior::Success);

    // Check reputation increased
    let reputation = shield.get_reputation("test-relay");
    assert!(reputation.is_some());
    assert!(score(reputation.unwrap()) > 0.5);
}

#[test]
fn reports_are_counted() {
    let mut shield = shield();
    shield.register_relay(relay("r", IpAddr::v4(1, 2, 3, 4), "r", "f"), Instant { nanos: 5 }).unwrap();
    assert_eq!(score(shield.get_reputation("r").unwrap()), 0.5);
    report(&mut shield, "r", RelayBehavior::Success);
    report(&mut shield, "r", RelayBehavior::Success);
    report(&mut shield, "r", RelayBehavior::Failure);
    report(&mut shield, "r", RelayBehavior::Suspicious);
    let entry = shield.reputation_db.entries.get("r").unwrap();
    assert_eq!((entry.successes, entry.failures), (2, 1));
    assert_eq!(entry.flags, vec!["suspicious"]);
    assert_eq!(entry.first_seen, Instant { nanos: 5 });
    assert_eq!(entry.last_update, now());
    // Nothing is known of others, and nothing is kept of reports on them.
    shield.report_behavior("s", RelayBehavior::Success, Reading { bits: 0 }, now());
    assert_eq!(shield.get_reputation("s"), None);
}

#[test]
fn test_trust_network() {
    let mut network = TrustNetwork::new();

    // Build trust relationships
    network.add_trust("alice", "bob");
    network.add_trust("alice", "charlie");
    network.add_trust("bob", "charlie");

    // Charlie has 2 incoming edges
    let trust = network.calculate_trust("charlie");
    assert!(trust.exceeds(&Ratio::new(0, 1)));
    assert_eq!(trust, Ratio::new(2, 2));
    assert_eq!(network.calculate_trust("bob"), Ratio::new(1, 2));
    assert_eq!(network.calculate_trust("alice"), Ratio::new(0, 2));
    assert_eq!(TrustNetwork::new().calculate_trust("alice"), Ratio::new(0, 1));
}

#[test]
fn test_bandwidth_measurement() {
    let mut authority = BandwidthAuthority::new();

    // Measure bandwidth
    let measured = authority.measure("test-relay", 2000000, now());
    assert_eq!(measured, 1000000); // Conservative estimate (50%)

    // Check for inflation
    assert!(authority.check_inflation("test-relay", Ratio::new(3, 2)));
    assert!(!authority.check_inflation("test-relay", Ratio::new(2, 1)));
    // A measurement of zero counts as one.
    authority.measure("tiny", 1, now());
    assert!(authority.check_inflation("tiny", Ratio::new(1, 2)));
    assert!(!authority.check_inflation("tiny", Ratio::new(1, 1)));
}

#[test]
fn test_relay_below_stake_threshold_rejected() {
    let mut shield = shield();

    // Guard relay requires stake ≥ 1000; provide only 500
    let mut info = relay("cheap-relay", IpAddr::v4(10, 0, 0, 1), "cheap", "aabbcc");
    info.stake_amount = 500; // below required 1000

    let result = shield.register_relay(info, now());
    assert!(result.is_err(), "relay with stake below threshold must be rejected");
    assert_eq!(
        result.unwrap_err().to_string(),
        "Resource allocation failed: Insufficient stake: 500 < 1000"
    );
    assert_eq!(shield.get_reputation("cheap-relay"), None);
}

#[test]
fn test_relay_at_exact_stake_threshold_accepted() {
    let mut shield = shield();

    // Exit relay requires stake ≥ 2000; provide exactly 2000
    let mut info = relay("exact-stake-relay", IpAddr::v4(10, 0, 0, 2), "exact", "ddeeff");
    info.bandwidth = 2_000_000;
    info.relay_type = RelayType::Exit;
    info.stake_amount = 2000; // exactly required

    let result = shield.register_relay(info, now());
    assert!(result.is_ok(), "relay with stake exactly at threshold must be accepted");
}

#[test]
fn test_reputation_decay_on_repeated_failures() {
    let mut shield = shield();

    // Register relay first
    let mut info = relay("failing-relay", IpAddr::v4(10, 0, 0, 5), "failing", "fffaaa");
    info.relay_type = RelayType::Middle;
    info.stake_amount = 500;
    shield.register_relay(info, now()).unwrap();
    assert!(shield.verify_relay("failing-relay").unwrap());

    // Report 10 failures — score should decrease
    for _ in 0..10 {
        report(&mut shield, "failing-relay", RelayBehavior::Failure);
    }

    let reputation = score(shield.get_reputation("failing-relay").unwrap());
    // Starting score is 0.5; each failure multiplies by 0.9:
    // 0.5 * 0.9^10 ≈ 0.174 — well below 0.5 threshold
    assert!(
        reputation < 0.5,
        "reputation must decay below threshold after 10 consecutive failures, got {}",
        reputation
    );
    assert!(!shield.verify_relay("failing-relay").unwrap());
}

#[test]
fn test_behavioral_anomaly_detection_suspicious_flags() {
    let mut shield = shield();

    let info = relay("suspicious-relay", IpAddr::v4(10, 0, 0, 6), "susp", "123456");
    shield.register_relay(info, now()).unwrap();

    // Report several suspicious behaviors — score should drop
    for _ in 0..5 {
        report(&mut shield, "suspicious-relay", RelayBehavior::Suspicious);
    }

    let reputation = score(shield.get_reputation("suspicious-relay").unwrap());
    // Starting score 0.5 * 0.8^5 ≈ 0.164 — below min_reputation (0.5)
    assert!(
        reputation < 0.5,
        "repeated suspicious reports must reduce score below threshold, got {}",
        reputation
    );
}

#[test]
fn test_blocked_relay_verify_returns_false() {
    let mut shield = shield();

    // Manually block a relay
    shield.blocked_relays.insert("blocked-relay".to_string());

    let result = shield.verify_relay("blocked-relay").unwrap();
    assert!(!result, "explicitly blocked relay must fail verification");
}

#[test]
fn test_sybil_high_confidence_group_blocks_member() {
    let mut shield = shield();

    // Register members
    for i in 0..3_u8 {
        let mut info = relay(
            &format!("sybil-member-{}", i),
            IpAddr::v4(10, 0, 1, i),
            &format!("sybilnode{}", i),
            &format!("fp{}", i),
        );
        info.relay_type = RelayType::Middle;
        info.stake_amount = 500;
        shield.register_relay(info, now()).unwrap();
    }

    // Inject a high-confidence Sybil group
    shield.detection_engine.sybil_groups.push(SybilGroup {
        group_id: "test-sybil".to_string(),
        members: vec![
            "sybil-member-0".to_string(),
            "sybil-member-1".to_string(),
            "sybil-member-2".to_string(),
        ],
        confidence: Ratio::new(95, 100), // > 0.8 threshold
        detected_at: now(),
    });

    // All members with confidence > 0.8 should fail verification
    for i in 0..3_u8 {
        let result = shield.verify_relay(&format!("sybil-member-{}", i)).unwrap();
        assert!(
            !result,
            "sybil-member-{} with group confidence 0.95 must fail verification",
            i
        );
    }
    let groups = shield.detect_sybils();
    assert_eq!(groups.len(), 1);
    assert_eq!(groups[0].group_id, "test-sybil");
    assert_eq!(groups[0].members.len(), 3);
}

#[test]
fn only_confident_groups_are_blocked() {
    let mut shield = shield();
    for (name, tenths) in [("sure", 95u64), ("likely", 85), ("even", 80)] {
        shield.detection_engine.sybil_groups.push(SybilGroup {
            group_id: name.to_string(),
            members: vec![name.to_string()],
            confidence: Ratio::new(tenths, 100),
            detected_at: now(),
        });
    }
    shield.block_detected();
    assert!(shield.blocked_relays.contains("sure"));
    assert!(!shield.blocked_relays.contains("likely"));
    assert!(!shield.verify_relay("sure").unwrap());
    assert!(!shield.verify_relay("likely").unwrap());
    assert!(shield.verify_relay("even").unwrap());
}

#[test]
fn same_subnet_needs_two_short_addresses() {
    let a = IpAddr::v4(192, 168, 1, 1);
    let b = IpAddr::v4(192, 168, 200, 1);
    assert!(SybilDetector::same_subnet_check(&a, &b, 16));
    assert!(!SybilDetector::same_subnet_check(&a, &b, 24));
    assert!(!SybilDetector::same_subnet_check(&a, &IpAddr::V6(0), 16));
    assert!(!SybilDetector::same_subnet_check(&IpAddr::V6(0), &IpAddr::V6(0), 16));
    // The prefix does not matter where there is nothing to cut.
    assert!(!SybilDetector::same_subnet_check(&a, &IpAddr::V6(0), 0));
    let long = vec![relay("long", IpAddr::V6(1), "n", "f")];
    assert!(detector().detect_same_subnet(&long, 64, now()).is_empty());
}
