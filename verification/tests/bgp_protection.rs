use gptl_routing::address::IpAddr;
use gptl_routing::bgp_protection::{
    ArtemisDetector, BaselineEntry, BgpAlertType, BgpGuard, BgpMonitor, BgpThreat, BgpUpdate,
    CounterRaptor, DetectionHeuristic, GuardCandidate, RoaEntry, RpkiValidationState,
    RpkiValidator,
};
use gptl_routing::names::NameMap;
use gptl_routing::ratio::Ratio;
use gptl_routing::time::{Duration, Instant};
use gptl_routing::RoutingConfig;

fn at(secs: u64) -> Instant {
    Instant { nanos: secs * 1_000_000_000 }
}

fn guard() -> BgpGuard {
    BgpGuard::new(RoutingConfig::default(), at(0))
}

fn update(secs: u64, prefix: &str, origin_as: u32, as_path: Vec<u32>) -> BgpUpdate {
    BgpUpdate { timestamp: at(secs), prefix: prefix.to_string(), origin_as, as_path }
}

#[test]
fn test_path_diversity() {
    let guard = guard();

    let path1 = vec![1, 2, 3, 4];
    let path2 = vec![1, 5, 6, 4];

    // Should allow paths with at most 1 common AS
    let result = guard.validate_path_diversity(&path1, &path2).unwrap();
    assert!(result);

    // Test paths with too much overlap
    let path3 = vec![1, 2, 3, 4];
    let path4 = vec![1, 2, 3, 5];
    let result2 = guard.validate_path_diversity(&path3, &path4).unwrap();
    assert!(!result2);
}

#[test]
fn path_diversity_counts_each_common_as_once() {
    let guard = guard();
    assert!(guard.validate_path_diversity(&[1, 7, 7, 7, 2], &[3, 7, 7, 4]).unwrap());
    assert!(guard.validate_path_diversity(&[1, 2], &[1, 2]).unwrap());
    assert!(guard.validate_path_diversity(&[], &[1, 2, 3, 4]).unwrap());
    let (a, b) = ([9, 1, 2, 3, 9], [8, 3, 1, 8]);
    assert!(!guard.validate_path_diversity(&a, &b).unwrap());
    assert!(!guard.validate_path_diversity(&b, &a).unwrap());
}

#[test]
fn test_counter_raptor() {
    let mut counter = CounterRaptor::new(12345);

    let candidates = vec![
        GuardCandidate {
            identity: "guard1".to_string(),
            address: "192.168.1.1:9001".to_string(),
            bandwidth: 1000000,
            asn: 12345, // Same as client
        },
        GuardCandidate {
            identity: "guard2".to_string(),
            address: "192.168.2.1:9001".to_string(),
            bandwidth: 2000000,
            asn: 67890,
        },
    ];

    let selected = counter.select_as_aware_guard(&candidates);
    assert!(selected.is_some());
    assert_eq!(selected.unwrap().asn, 67890); // Should avoid same AS

    counter.update_avoid_list(vec![1, 67890]);
    assert!(counter.select_as_aware_guard(&candidates).is_none());
}

#[test]
fn the_last_of_the_fastest_guards_is_selected() {
    let counter = CounterRaptor::new(0);
    let candidate = |name: &str, bandwidth: u64, asn: u32| GuardCandidate {
        identity: name.to_string(),
        address: "a".to_string(),
        bandwidth,
        asn,
    };
    let candidates =
        vec![candidate("a", 5, 1), candidate("b", 9, 2), candidate("c", 9, 3), candidate("d", 2, 4)];
    assert_eq!(counter.select_as_aware_guard(&candidates).unwrap().identity, "c");
    assert!(counter.select_as_aware_guard(&[]).is_none());
}

#[test]
fn test_rpki_validation() {
    let mut validator = RpkiValidator { roa_cache: NameMap::new(), last_update: at(0) };

    // Add test ROA
    validator.roa_cache.insert(
        "1.0.0.0/24",
        RoaEntry {
            prefix: "1.0.0.0/24".to_string(),
            origin_as: 13335,
            max_length: 24,
            valid_until: at(3600),
        },
    );

    // Test valid route
    let state = validator.validate_route_origin("1.0.0.0/24", 13335, 24, at(0));
    assert_eq!(state, RpkiValidationState::Valid);

    // Test invalid origin AS
    let state2 = validator.validate_route_origin("1.0.0.0/24", 99999, 24, at(0));
    assert_eq!(state2, RpkiValidationState::Invalid);

    // Test not found
    let state3 = validator.validate_route_origin("2.0.0.0/24", 13335, 24, at(0));
    assert_eq!(state3, RpkiValidationState::NotFound);

    // Too long a prefix, and an entry on and after its last moment
    let long = validator.validate_route_origin("1.0.0.0/24", 13335, 25, at(0));
    assert_eq!(long, RpkiValidationState::Invalid);
    let last = validator.validate_route_origin("1.0.0.0/24", 13335, 24, at(3600));
    assert_eq!(last, RpkiValidationState::Valid);
    let late = validator.validate_route_origin("1.0.0.0/24", 13335, 24, at(3601));
    assert_eq!(late, RpkiValidationState::NotFound);
}

#[test]
fn fetched_entries_hold_for_a_day() {
    let mut validator = RpkiValidator { roa_cache: NameMap::new(), last_update: at(0) };
    assert!(validator.fetch_roas("rtr.example:8282", at(10)).is_ok());
    assert_eq!(validator.last_update, at(10));
    assert_eq!(
        validator.validate_route_origin("8.8.8.0/24", 15169, 24, at(86410)),
        RpkiValidationState::Valid
    );
    assert_eq!(
        validator.validate_route_origin("1.0.0.0/24", 13335, 20, at(86411)),
        RpkiValidationState::NotFound
    );
    assert!(validator.validate_prefix("8.8.8.0/24", at(0)));
    assert!(validator.validate_prefix("unknown", at(0)));
    // A later entry takes the place of an earlier one.
    let entry = |origin_as: u32| RoaEntry {
        prefix: "8.8.8.0/24".to_string(),
        origin_as,
        max_length: 24,
        valid_until: at(20),
    };
    validator.update_roa_cache(vec![entry(1), entry(2)], at(11));
    assert_eq!(
        validator.validate_route_origin("8.8.8.0/24", 2, 24, at(12)),
        RpkiValidationState::Valid
    );
    assert_eq!(validator.roa_cache.len(), 2);
}

#[test]
fn test_artemis_detector() {
    let mut detector = ArtemisDetector::new(Ratio::new(8, 10));

    // Add baseline
    detector.baseline.insert(
        "1.0.0.0/24",
        BaselineEntry {
            expected_origin: 13335,
            expected_path: vec![13335, 174, 3356],
            confidence: Ratio::new(95, 100),
        },
    );

    // Test normal announcement
    let normal = update(0, "1.0.0.0/24", 13335, vec![13335, 174, 3356]);
    assert!(detector.detect_hijack(&normal).is_none());

    // Test hijack
    let hijack_update = update(0, "1.0.0.0/24", 99999, vec![99999, 174, 3356]);
    let detection = detector.detect_hijack(&hijack_update);
    assert!(detection.is_some());
    let detection = detection.unwrap();
    assert_eq!(detection.detected_origin, 99999);
    assert_eq!(detection.expected_origin, 13335);
    assert_eq!(detection.prefix, "1.0.0.0/24");
    assert_eq!(detection.confidence, Ratio::new(95, 100));

    // Nothing is expected of other prefixes
    let other = update(0, "2.0.0.0/24", 99999, vec![]);
    assert!(detector.detect_hijack(&other).is_none());
}

#[test]
fn test_bgp_monitor_heuristics() {
    let monitor = BgpMonitor {
        update_history: vec![update(0, "1.0.0.0/24", 13335, vec![13335, 174])],
        heuristics: vec![DetectionHeuristic::PathLength { max_length: 10 }],
    };

    // Test path length check
    let result = monitor.check_path_length(10);
    assert!(result.is_none()); // Path length 2 is OK
}

#[test]
fn heuristics_find_threats() {
    let monitor = BgpMonitor {
        update_history: vec![
            update(0, "1.0.0.0/24", 10, vec![1]),
            update(500, "1.0.0.0/24", 10, vec![1, 2, 3]),
            update(100, "2.0.0.0/24", 20, vec![4, 5]),
            update(160, "2.0.0.0/24", 10, vec![6]),
        ],
        heuristics: vec![],
    };
    // One in four announcements comes from AS 20.
    match monitor.check_frequency_anomaly(Ratio::new(1, 2)) {
        Some(BgpThreat::LowFrequency { asn, count, total }) => {
            assert_eq!((asn, count, total), (20, 1, 4));
        }
        _ => unreachable!(),
    }
    assert!(monitor.check_frequency_anomaly(Ratio::new(1, 4)).is_none());
    // The second prefix was announced for a minute only.
    match monitor.check_time_anomaly(Duration { nanos: 360_000_000_000 }) {
        Some(BgpThreat::ShortLived { prefix, duration }) => {
            assert_eq!(prefix, "2.0.0.0/24");
            assert_eq!(duration.nanos, 60_000_000_000);
        }
        _ => unreachable!(),
    }
    assert!(monitor.check_time_anomaly(Duration { nanos: 60_000_000_000 }).is_none());
    match monitor.check_path_length(1) {
        Some(BgpThreat::LongPath(path)) => assert_eq!(path, vec![1, 2, 3]),
        _ => unreachable!(),
    }
    assert!(monitor.check_origin_validation().is_none());
}

#[test]
fn threats_in_words() {
    assert_eq!(BgpThreat::RpkiInvalid.describe(""), "RPKI validation failed");
    assert_eq!(BgpThreat::MaliciousAs(66666).describe(""), "Path contains malicious AS: 66666");
    let low = BgpThreat::LowFrequency { asn: 20, count: 1, total: 4 };
    assert_eq!(low.describe("0.25"), "Low frequency AS detected: 20 (freq: 0.25)");
    let short = BgpThreat::ShortLived {
        prefix: "2.0.0.0/24".to_string(),
        duration: Duration { nanos: 60_000_000_000 },
    };
    assert_eq!(
        short.describe("60s"),
        "Short-lived prefix announcement: 2.0.0.0/24 (duration: 60s)"
    );
    assert_eq!(
        BgpThreat::LongPath(vec![1, 22, 333]).describe(""),
        "Suspicious AS path length: 3 (path: [1, 22, 333])"
    );
    assert_eq!(
        BgpThreat::LongPath(vec![]).describe(""),
        "Suspicious AS path length: 0 (path: [])"
    );
}

#[test]
fn test_bgp_guard_initialization() {
    let guard = guard();
    assert_eq!(guard.bgp_monitor.heuristics.len(), 4);
    assert!(guard.malicious_ases.is_empty());
}

#[test]
fn test_malicious_as_blocking() {
    let mut guard = guard();

    // Add malicious AS
    guard.malicious_ases.insert(66666);

    match guard.judge_route(true, &vec![1, 66666, 2]) {
        Some(BgpThreat::MaliciousAs(asn)) => assert_eq!(asn, 66666),
        _ => unreachable!(),
    }
    assert!(guard.judge_route(true, &vec![1, 2]).is_none());
    assert!(matches!(guard.judge_route(false, &vec![66666]), Some(BgpThreat::RpkiInvalid)));
}

#[test]
fn routes_without_history_are_clear() {
    let destination = IpAddr::v4(1, 2, 3, 4);
    let mut guard = guard();
    assert!(guard.check_route(&destination, "1.2.3.4", at(0)).unwrap().is_none());
    // One announcement alone is short-lived.
    guard.report_anomaly(update(0, "1.0.0.0/24", 10, vec![1]), BgpAlertType::Anomaly);
    let threat = guard.check_route(&destination, "1.2.3.4", at(0)).unwrap();
    assert!(matches!(threat, Some(BgpThreat::ShortLived { .. })));
    guard.config.bgp_protection = false;
    assert!(guard.check_route(&destination, "1.2.3.4", at(0)).unwrap().is_none());
}

#[test]
fn hijackers_become_malicious() {
    let mut guard = guard();
    guard.report_anomaly(update(0, "p", 7, vec![]), BgpAlertType::Interception);
    assert!(!guard.malicious_ases.contains(&7));
    guard.report_anomaly(update(0, "p", 7, vec![]), BgpAlertType::Hijack);
    assert!(guard.malicious_ases.contains(&7));
    assert_eq!(guard.bgp_monitor.update_history.len(), 2);
}
