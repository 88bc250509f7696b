use gptl_routing::guard_management::{
    AlertRecommendation, GuardDoSProtection, GuardEntry, GuardManager, PredecessorDefense,
};
use gptl_routing::ratio::Ratio;
use gptl_routing::reading::{Reading, ONE, ONE_HALF, THREE_TENTHS};
use gptl_routing::time::Instant;
use gptl_routing::{GuardInfo, GuardLayer, RoutingConfig, SecurityLevel};

const DAY: u64 = 24 * 60 * 60 * 1_000_000_000;

fn at(nanos: u64) -> Instant {
    Instant { nanos }
}

fn info(identity: &str, bandwidth: u64, layer: GuardLayer) -> GuardInfo {
    GuardInfo {
        identity: identity.to_string(),
        address: "192.168.1.1:9001".to_string(),
        bandwidth,
        layer,
    }
}

fn better(r: Reading) -> Reading {
    Reading { bits: (f64::from_bits(r.bits) * 0.9 + 0.1).min(1.0).to_bits() }
}

fn worse(r: Reading) -> Reading {
    Reading { bits: (f64::from_bits(r.bits) * 0.8).to_bits() }
}

fn reputation(entry: &GuardEntry) -> f64 {
    f64::from_bits(entry.reputation.bits)
}

#[test]
fn test_guard_manager() {
    let mut manager = GuardManager::new(RoutingConfig::default());

    // Add a guard
    manager
        .add_guard(info("guard1", 1000000, GuardLayer::First), GuardLayer::First, at(0))
        .unwrap();

    // Should be able to select guards
    let guards = manager.select_guards();
    assert!(guards.is_ok());
    let guards = guards.unwrap();
    assert_eq!(guards.len(), 1);
    assert_eq!(guards[0].identity, "guard1");
}

#[test]
fn selection_without_guards_fails() {
    let manager = GuardManager::new(RoutingConfig::default());
    let e = manager.select_guards().unwrap_err();
    assert_eq!(e.to_string(), "Guard selection failed: No guards available");
}

#[test]
fn the_security_level_decides_on_the_layers() {
    let mut config = RoutingConfig::default();
    for (level, expected) in [
        (SecurityLevel::Standard, vec!["a"]),
        (SecurityLevel::Enhanced, vec!["a", "b"]),
        (SecurityLevel::Maximum, vec!["a", "b", "c"]),
    ] {
        config.security_level = level;
        let mut manager = GuardManager::new(config);
        manager.add_guard(info("a", 1, GuardLayer::First), GuardLayer::First, at(0)).unwrap();
        manager.add_guard(info("b", 2, GuardLayer::Second), GuardLayer::Second, at(0)).unwrap();
        manager.add_guard(info("c", 3, GuardLayer::Third), GuardLayer::Third, at(0)).unwrap();
        let names: Vec<String> =
            manager.select_guards().unwrap().into_iter().map(|g| g.identity).collect();
        assert_eq!(names, expected);
    }
}

#[test]
fn guards_are_picked_by_bandwidth() {
    let mut manager = GuardManager::new(RoutingConfig::default());
    for (name, bandwidth) in [("a", 3u64), ("b", 0), ("c", 2)] {
        manager.add_guard(info(name, bandwidth, GuardLayer::First), GuardLayer::First, at(0)).unwrap();
    }
    let picked: Vec<String> = (0..5)
        .map(|n| GuardManager::pick_guard(&manager.first_layer, n).unwrap().identity)
        .collect();
    assert_eq!(picked, vec!["a", "a", "a", "c", "c"]);
    // One of low reputation cannot be picked.
    manager.first_layer[0].reputation = Reading { bits: ONE_HALF };
    assert_eq!(GuardManager::pick_guard(&manager.first_layer, 0).unwrap().identity, "c");
    assert_eq!(manager.select_drawn(1, 0, 0).unwrap()[0].identity, "c");
    manager.first_layer[2].reputation = Reading { bits: 0 };
    manager.first_layer[1].reputation = Reading { bits: 0 };
    assert!(GuardManager::pick_guard(&manager.first_layer, 0).is_none());
}

#[test]
fn every_guard_with_bandwidth_comes_up() {
    let mut manager = GuardManager::new(RoutingConfig::default());
    for name in ["a", "b"] {
        manager.add_guard(info(name, 1, GuardLayer::First), GuardLayer::First, at(0)).unwrap();
    }
    let mut seen = vec![false, false];
    for _ in 0..200 {
        let name = manager.select_guards().unwrap()[0].identity.clone();
        seen[if name == "a" { 0 } else { 1 }] = true;
    }
    assert_eq!(seen, vec![true, true]);
}

#[test]
fn rotation_removes_old_and_disreputable_guards() {
    let mut manager = GuardManager::new(RoutingConfig::default());
    manager.add_guard(info("old", 1, GuardLayer::Third), GuardLayer::Third, at(0)).unwrap();
    manager.add_guard(info("bad", 1, GuardLayer::Third), GuardLayer::Third, at(DAY)).unwrap();
    manager.add_guard(info("good", 1, GuardLayer::Third), GuardLayer::Third, at(DAY)).unwrap();
    manager.third_layer[1].reputation = Reading { bits: THREE_TENTHS };
    manager.rotation_scheduler.third_rotation = Some(at(0));
    manager.rotate_due_layers(at(7 * DAY));
    assert_eq!(manager.third_layer.len(), 3);
    manager.rotate_due_layers(at(7 * DAY + 1));
    assert_eq!(manager.third_layer.len(), 1);
    assert_eq!(manager.third_layer[0].info.identity, "good");
    assert_eq!(manager.rotation_scheduler.third_rotation, Some(at(7 * DAY + 1)));
    GuardManager::rotate_layer(&mut manager.third_layer, GuardLayer::Third, at(8 * DAY));
    assert!(manager.third_layer.is_empty());
}

#[test]
fn layers_age_differently() {
    for (layer, days) in
        [(GuardLayer::First, 90u64), (GuardLayer::Second, 30), (GuardLayer::Third, 7)]
    {
        let mut manager = GuardManager::new(RoutingConfig::default());
        manager.add_guard(info("g", 1, layer), GuardLayer::First, at(0)).unwrap();
        let mut guards = manager.first_layer;
        GuardManager::rotate_layer(&mut guards, layer, at(days * DAY - 1));
        assert_eq!(guards.len(), 1);
        GuardManager::rotate_layer(&mut guards, layer, at(days * DAY));
        assert!(guards.is_empty());
    }
}

#[test]
fn reports_change_reputations_in_every_layer() {
    let mut manager = GuardManager::new(RoutingConfig::default());
    manager.add_guard(info("g", 1, GuardLayer::First), GuardLayer::First, at(0)).unwrap();
    manager.add_guard(info("g", 1, GuardLayer::Second), GuardLayer::Second, at(0)).unwrap();
    manager.add_guard(info("h", 1, GuardLayer::Third), GuardLayer::Third, at(0)).unwrap();
    // A failure is counted only for a guard with statistics.
    manager.report_failure("g", worse);
    assert!(manager.usage_stats.get("g").is_none());
    assert_eq!(reputation(&manager.first_layer[0]), 0.8);
    assert_eq!(reputation(&manager.second_layer[0]), 0.8);
    assert_eq!(manager.third_layer[0].reputation.bits, ONE);
    assert_eq!(manager.first_layer[0].failure_count, 1);
    manager.report_success("g", 100, better);
    manager.report_success("g", 50, better);
    manager.report_failure("g", worse);
    let stats = manager.usage_stats.get("g").unwrap();
    assert_eq!((stats.total_circuits, stats.failed_circuits, stats.bytes_transferred), (2, 1, 150));
    assert_eq!(manager.first_layer[0].use_count, 2);
    assert_eq!(manager.first_layer[0].failure_count, 2);
    assert_eq!(manager.third_layer[0].use_count, 0);
}

#[test]
fn test_predecessor_defense() {
    let mut defense = PredecessorDefense::new(Ratio::new(1, 2));

    // Record some constructions
    for _ in 0..10 {
        defense.record_construction(
            "guard1".to_string(),
            "relay2".to_string(),
            "relay3".to_string(),
            at(0),
        );
    }

    // Should detect concentration
    let alert = defense.detect_attack();
    assert!(alert.is_some());
    let alert = alert.unwrap();
    assert_eq!(alert.suspicious_hop, "guard1");
    assert_eq!(alert.frequency, Ratio::new(10, 10));
    assert_eq!(alert.recommendation, AlertRecommendation::RotateGuard);
}

#[test]
fn an_even_spread_is_no_attack() {
    let mut defense = PredecessorDefense::new(Ratio::new(1, 2));
    assert!(defense.detect_attack().is_none());
    for name in ["a", "b"] {
        defense.record_construction(name.to_string(), "m".to_string(), "e".to_string(), at(0));
    }
    assert!(defense.detect_attack().is_none());
}

#[test]
fn only_the_last_thousand_circuits_count() {
    let mut defense = PredecessorDefense::new(Ratio::new(99, 100));
    for i in 0..1500u64 {
        let name = if i < 500 { "early" } else { "late" };
        defense.record_construction(name.to_string(), "m".to_string(), "e".to_string(), at(i));
    }
    assert_eq!(defense.construction_history.len(), 1000);
    assert_eq!(defense.construction_history[0].timestamp, at(500));
    assert_eq!(defense.detect_attack().unwrap().suspicious_hop, "late");
}

#[test]
fn guards_under_attack_are_blocked() {
    let second = 1_000_000_000;
    let mut protection = GuardDoSProtection::new(2);
    assert!(protection.record_attempt("g", at(0)));
    assert!(protection.record_attempt("g", at(10 * second)));
    assert!(!protection.record_attempt("g", at(20 * second)));
    assert!(protection.is_blocked("g"));
    assert!(!protection.is_blocked("h"));
    // The first attempts are forgotten after a minute.
    assert!(protection.record_attempt("g", at(70 * second)));
    assert_eq!(protection.connection_attempts.get("g").unwrap().len(), 2);
    assert!(protection.is_blocked("g"));
}

#[test]
fn what_can_be_counted_is_told_beforehand() {
    let mut manager = GuardManager::new(RoutingConfig::default());
    let layer = GuardLayer::First;
    manager.add_guard(info("a", u64::MAX, layer), layer, at(0)).unwrap();
    assert!(manager.can_select());
    assert!(manager.can_report("a"));
    manager.first_layer[0].use_count = u64::MAX;
    assert!(!manager.can_report("a"));
    assert!(manager.can_report("b"));
    manager.add_guard(info("b", 1, layer), layer, at(0)).unwrap();
    assert!(!manager.can_select());
}

#[test]
fn the_only_guard_of_a_layer_is_the_best() {
    let mut manager = GuardManager::new(RoutingConfig::default());
    assert!(GuardManager::select_best_guard(&manager.second_layer).is_none());
    let layer = GuardLayer::Second;
    manager.add_guard(info("only", 5, layer), layer, at(0)).unwrap();
    let best = GuardManager::select_best_guard(&manager.second_layer).unwrap();
    assert_eq!(best.identity, "only");
}


#[test]
fn the_layers_of_a_new_manager_are_rotated() {
    let mut manager = GuardManager::new(RoutingConfig::default());
    manager.add_guard(info("old", 1, GuardLayer::Third), GuardLayer::Third, at(0)).unwrap();
    manager.add_guard(info("new", 1, GuardLayer::Third), GuardLayer::Third, at(5 * DAY)).unwrap();
    manager.rotate_due_layers(at(6 * DAY));
    assert_eq!(manager.third_layer.len(), 2);
    assert_eq!(manager.rotation_scheduler.first_rotation, Some(at(6 * DAY)));
    assert_eq!(manager.rotation_scheduler.third_rotation, Some(at(6 * DAY)));

    // Not again before the interval has passed.
    manager.rotate_due_layers(at(13 * DAY));
    assert_eq!(manager.third_layer.len(), 2);
    manager.rotate_due_layers(at(13 * DAY + 1));
    assert!(manager.third_layer.is_empty());
    assert_eq!(manager.rotation_scheduler.third_rotation, Some(at(13 * DAY + 1)));
    assert_eq!(manager.rotation_scheduler.first_rotation, Some(at(6 * DAY)));
}
