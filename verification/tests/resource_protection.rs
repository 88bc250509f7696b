use gptl_routing::ratio::Ratio;
use gptl_routing::resource_protection::{
    constant_time_eq, meets_difficulty, pow_hash, pow_preimage, CircuitQuota, CircuitWindow,
    MemoryPool, PowCache, PowGenerator, PowVerifier, ResourceGuard, SniperDetector,
    REPLAY_WINDOW_NANOS,
};
use gptl_routing::time::{Duration, Instant};
use gptl_routing::{ProofOfWork, RoutingConfig};
use sha2::{Digest, Sha256};

fn at(nanos: u64) -> Instant {
    Instant { nanos }
}

fn guard_with(difficulty: u32) -> ResourceGuard {
    ResourceGuard::with_difficulty(RoutingConfig::default(), difficulty)
}

fn proof_for(difficulty: u32, circuit_id: u32) -> ProofOfWork {
    PowGenerator::new(difficulty).generate(circuit_id).unwrap()
}

#[test]
fn test_circuit_window() {
    let mut window = CircuitWindow::new(100);

    assert!(window.can_send());

    // Deliver 50 cells
    for _ in 0..50 {
        assert!(window.deliver());
    }

    assert_eq!(window.current_window, 50);

    // Process SENDME
    window.process_sendme(50);
    assert_eq!(window.current_window, 100);
}

#[test]
fn test_pow_generator() {
    let generator = PowGenerator::new(10);
    let pow = generator.generate(12345).unwrap();

    // Verify the PoW
    let mut hasher = Sha256::new();
    hasher.update(12345u32.to_le_bytes());
    hasher.update(pow.nonce.to_le_bytes());
    let result = hasher.finalize();

    let leading_zeros = result.iter().take_while(|&&b| b == 0).count() * 8;

    assert!(leading_zeros >= 10);
    assert_eq!(pow.hash, result.to_vec());
    assert_eq!(pow.circuit_id, 12345);
}

#[test]
fn test_sniper_detector() {
    let mut detector = SniperDetector::new(Ratio::new(1, 2));

    // Simulate sniper pattern
    for _ in 0..1001 {
        detector.record_received(1, at(0));
    }

    // Only ack 10 (< 1% ratio)
    for _ in 0..10 {
        detector.record_ack(1, at(0));
    }

    assert!(detector.detect_sniper(1));
}

#[test]
fn test_resource_guard() {
    let guard = ResourceGuard::new(RoutingConfig::default());
    assert_eq!(guard.pow_verifier.difficulty, 20);
    assert_eq!(guard.memory_pool.total_available, 1024 * 1024 * 1024);
}

#[test]
fn test_circuit_allocation() {
    let mut guard = guard_with(8);

    // Generate valid PoW
    let pow = proof_for(8, 12345); // low difficulty keeps tests fast

    // Allocate circuit
    let result = guard.allocate(pow, at(0));
    assert!(result.is_ok());

    let allocation = result.unwrap();
    assert!(allocation.memory_quota > 0);
    assert!(allocation.bandwidth_quota > 0);
}

#[test]
fn test_memory_quota_enforcement() {
    let mut guard = guard_with(8);

    // Generate and allocate
    let pow = proof_for(8, 12345);
    let allocation = guard.allocate(pow, at(0)).unwrap();

    // Check memory within quota
    assert!(guard.check_memory(allocation.circuit_id, 1024));

    // Check memory exceeding quota
    assert!(!guard.check_memory(allocation.circuit_id, allocation.memory_quota + 1));
}

#[test]
fn test_circuit_release() {
    let mut guard = guard_with(8);

    let pow = proof_for(8, 12345);
    let allocation = guard.allocate(pow, at(0)).unwrap();

    // Release circuit
    assert!(guard.release(allocation.circuit_id).is_ok());

    // Memory should be freed
    assert_eq!(guard.memory_pool.allocated, 0);
    assert!(guard.circuit_quotas.is_empty());
    assert!(guard.oom_handler.kill_queue.is_empty());
}

#[test]
fn test_pow_verification() {
    let mut verifier = PowVerifier { difficulty: 10, verified_cache: PowCache::new() };

    // Generate valid PoW
    let pow = proof_for(10, 12345);

    assert!(verifier.verify(&pow, at(0)));
}

#[test]
fn test_difficulty_adjustment() {
    let mut verifier = PowVerifier { difficulty: 20, verified_cache: PowCache::new() };

    // Too many allocations - increase difficulty
    verifier.adjust_difficulty(10, 15);
    assert_eq!(verifier.difficulty, 21);

    // Too few allocations - decrease difficulty
    verifier.adjust_difficulty(10, 5);
    assert_eq!(verifier.difficulty, 20);
}

#[test]
fn difficulty_stays_within_its_bounds() {
    let mut verifier = PowVerifier { difficulty: 32, verified_cache: PowCache::new() };
    verifier.adjust_difficulty(10, 100);
    assert_eq!(verifier.difficulty, 32);
    verifier.difficulty = 0;
    verifier.adjust_difficulty(10, 0);
    assert_eq!(verifier.difficulty, 0);
    // A fifth above or below the target is not yet too much.
    verifier.difficulty = 7;
    verifier.adjust_difficulty(10, 12);
    assert_eq!(verifier.difficulty, 7);
    verifier.adjust_difficulty(10, 8);
    assert_eq!(verifier.difficulty, 7);
    verifier.adjust_difficulty(u64::MAX, 0);
    assert_eq!(verifier.difficulty, 6);
}

#[test]
fn test_circuit_window_usage() {
    let mut window = CircuitWindow::new(100);

    // Deliver 75 cells
    for _ in 0..75 {
        window.deliver();
    }

    let usage = window.usage_ratio();
    let usage = usage.num as f64 / usage.den as f64;
    assert!((usage - 0.75).abs() < 0.01); // 75% usage
}

#[test]
fn test_sniper_victim_identification() {
    let mut detector = SniperDetector::new(Ratio::new(1, 2));

    // Create multiple circuits with different patterns
    for _ in 0..1001 {
        detector.record_received(1, at(0));
    }
    for _ in 0..10 {
        detector.record_ack(1, at(0));
    }

    // Normal circuit
    for _ in 0..100 {
        detector.record_received(2, at(0));
        detector.record_ack(2, at(0));
    }

    let victims = detector.get_victims();
    assert_eq!(victims.len(), 1);
    assert_eq!(victims[0], 1);
}

#[test]
fn sniper_detection_needs_many_cells_and_few_acknowledgements() {
    let mut detector = SniperDetector::new(Ratio::new(1, 2));
    for _ in 0..1000 {
        detector.record_received(1, at(3));
    }
    assert!(!detector.detect_sniper(1));
    detector.record_received(1, at(4));
    assert!(detector.detect_sniper(1));
    for _ in 0..501 {
        detector.record_ack(1, at(5));
    }
    // 501 of 1001 is more than half.
    assert!(!detector.detect_sniper(1));
    assert!(!detector.detect_sniper(99));
    assert_eq!(detector.circuit_stats[&1].last_ack, at(5));
}

#[test]
fn test_memory_pool() {
    let pool = MemoryPool {
        total_available: 1024 * 1024 * 1024,
        allocated: 0,
        circuit_limit: 100 * 1024 * 1024,
    };

    assert_eq!(pool.total_available, 1024 * 1024 * 1024);
    assert_eq!(pool.allocated, 0);
}

#[test]
fn test_oom_handler() {
    let mut guard = ResourceGuard::new(RoutingConfig::default());

    // Simulate high memory usage
    guard.memory_pool.allocated = (guard.memory_pool.total_available as f64 * 0.95) as usize;
    let before = guard.memory_pool.allocated;

    // Nothing is reserved, so nothing is freed.
    guard.relieve_pressure();
    assert_eq!(guard.memory_pool.allocated, before);
}

#[test]
fn memory_pressure_kills_every_queued_circuit() {
    let mut guard = guard_with(0);
    let quota = 100 * 1024 * 1024;
    for i in 0..10u32 {
        let pow = proof_for(0, i);
        let hash = pow.hash.clone();
        let r = guard.allocate_as(pow, &hash, i, at(i as u64));
        assert!(r.is_ok());
    }
    assert_eq!(guard.memory_pool.allocated, 10 * quota);
    assert_eq!(guard.circuit_quotas.len(), 10);
    // More than nine tenths of the gigabyte are taken.
    guard.relieve_pressure();
    assert_eq!(guard.memory_pool.allocated, 0);
    assert!(guard.circuit_quotas.is_empty());
    assert!(guard.oom_handler.kill_queue.is_empty());
}

#[test]
fn no_circuit_is_killed_without_pressure() {
    let mut guard = guard_with(0);
    let pow = proof_for(0, 7);
    let hash = pow.hash.clone();
    guard.allocate_as(pow, &hash, 7, at(0)).unwrap();
    guard.relieve_pressure();
    assert_eq!(guard.circuit_quotas.len(), 1);
    assert_eq!(guard.oom_handler.kill_queue, vec![(7, 0)]);
}

#[test]
fn kill_queue_is_sorted_and_stable() {
    let mut guard = guard_with(0);
    // With a verifier of difficulty 8, claims below it count as claimed.
    guard.pow_verifier.difficulty = 8;
    for (id, claim) in [(1u32, 5u32), (2, 3), (3, 5), (4, 30), (5, 3)] {
        let mut pow = proof_for(8, id);
        pow.difficulty = claim;
        let hash = pow.hash.clone();
        assert!(guard.allocate_as(pow, &hash, id, at(0)).is_ok());
    }
    assert_eq!(guard.oom_handler.kill_queue, vec![(2, 3), (5, 3), (1, 5), (3, 5), (4, 8)]);
}

#[test]
fn test_pow_hash_verification() {
    let generator = PowGenerator::new(16);
    let pow = generator.generate(99999).unwrap();

    // Verify hash has correct difficulty
    let leading_zeros = pow.hash.iter().take_while(|&&b| b == 0).count() * 8;

    assert!(leading_zeros >= 16);
    assert_eq!(pow.difficulty, 16);
}

#[test]
fn test_rate_limiting() {
    let guard = ResourceGuard::new(RoutingConfig::default());
    assert_eq!(guard.rate_limiter.max_per_minute, 10);
}

#[test]
fn test_pow_wrong_nonce_fails_verification() {
    let mut guard = ResourceGuard::new(RoutingConfig::default());

    // Generate a valid PoW
    let mut pow = proof_for(8, 42);

    // Corrupt the nonce so the hash no longer matches
    pow.nonce = pow.nonce.wrapping_add(1);
    pow.hash = vec![0xFFu8; 32]; // no leading zeros

    let result = guard.allocate(pow, at(0));
    assert!(result.is_err(), "PoW with hash lacking required leading zeros must be rejected");
}

#[test]
fn test_attacker_supplied_difficulty_is_ignored() {
    // A client must not be able to bypass PoW by claiming difficulty 0.
    let mut pow = proof_for(0, 1);
    pow.difficulty = 0;

    let mut guard = ResourceGuard::new(RoutingConfig::default()); // default difficulty (20)
    let result = guard.allocate(pow, at(0));
    assert!(
        result.is_err(),
        "a zero-work PoW must be rejected regardless of the claimed difficulty"
    );
}

#[test]
fn test_pow_cannot_be_replayed() {
    // One solved PoW must not allocate more than one circuit.
    let mut guard = guard_with(8);
    let pow = proof_for(8, 31337);

    assert!(guard.allocate(pow.clone(), at(0)).is_ok(), "first use succeeds");
    assert!(guard.allocate(pow, at(0)).is_err(), "replaying the same PoW must be rejected");
}

#[test]
fn a_proof_is_good_again_after_the_replay_window() {
    let mut verifier = PowVerifier { difficulty: 8, verified_cache: PowCache::new() };
    let pow = proof_for(8, 31337);
    assert!(verifier.verify(&pow, at(10)));
    assert!(!verifier.verify(&pow, at(10 + REPLAY_WINDOW_NANOS - 1)));
    assert!(verifier.verify(&pow, at(10 + REPLAY_WINDOW_NANOS)));
    assert_eq!(verifier.verified_cache.get(&pow.hash), Some(at(10 + REPLAY_WINDOW_NANOS)));
    // An old entry is forgotten when another proof is accepted.
    let other = proof_for(8, 31338);
    assert!(verifier.verify(&other, at(10 + 3 * REPLAY_WINDOW_NANOS)));
    assert_eq!(verifier.verified_cache.get(&pow.hash), None);
}

#[test]
fn test_attacker_cannot_inflate_quota_via_difficulty() {
    // Claiming a huge difficulty must not grant a larger quota.
    let mut guard = guard_with(8);
    let mut pow = proof_for(8, 4242);
    pow.difficulty = u32::MAX; // lie

    let alloc = guard.allocate(pow, at(0)).unwrap();
    // Quota is bounded by the server difficulty (8), not u32::MAX.
    assert_eq!(alloc.memory_quota, 100 * 1024 * 1024 + 8 * 10 * 1024 * 1024);
    assert_eq!(alloc.bandwidth_quota, 1024 * 1024 + 8 * 512 * 1024);
}

#[test]
fn test_memory_over_allocation_rejected() {
    let mut guard = guard_with(8);

    // Fill the memory pool to near capacity first: leave only 1 byte free
    guard.memory_pool.allocated = guard.memory_pool.total_available - 1;

    // A new allocation needs at least base_quota (100 MB) → must fail
    let pow = proof_for(8, 777);
    let result = guard.allocate(pow, at(0));
    assert!(result.is_err(), "allocation must fail when memory pool is exhausted");
    assert_eq!(
        result.unwrap_err().to_string(),
        "Resource allocation failed: Memory exhausted"
    );
}

#[test]
fn test_memory_check_over_quota_rejected() {
    let mut guard = guard_with(8);

    let pow = proof_for(8, 555);
    let allocation = guard.allocate(pow, at(0)).unwrap();

    // Trying to add more than the quota must be rejected
    let over_quota = allocation.memory_quota + 1;
    let ok = guard.check_memory(allocation.circuit_id, over_quota);
    assert!(
        !ok,
        "check_memory must return false when additional bytes would exceed max_memory"
    );
}

#[test]
fn memory_use_counts_against_the_quota() {
    let mut guard = guard_with(0);
    let pow = proof_for(0, 9);
    let hash = pow.hash.clone();
    let a = guard.allocate_as(pow, &hash, 9, at(0)).unwrap();
    guard.record_memory(9, a.memory_quota - 10);
    assert!(guard.check_memory(9, 10));
    assert!(!guard.check_memory(9, 11));
    assert!(!guard.check_memory(9, usize::MAX));
    assert!(!guard.check_memory(8, 0));
    guard.record_memory(8, 5);
    assert_eq!(
        guard.circuit_quotas[&9],
        CircuitQuota {
            max_memory: a.memory_quota,
            max_bandwidth: a.bandwidth_quota,
            current_memory: a.memory_quota - 10,
            current_bandwidth: 0,
        }
    );
}

#[test]
fn test_pow_difficulty_zero_verifier() {
    // PowVerifier with difficulty 0 must accept any hash (0 leading zero bits required)
    let mut verifier = PowVerifier { difficulty: 0, verified_cache: PowCache::new() };

    // A hash of all 0xFF bytes has 0 leading zeros
    let pow = ProofOfWork { difficulty: 0, circuit_id: 0, nonce: 0, hash: vec![0xFFu8; 32] };

    // leading_zeros = 0 >= 0 → should pass
    let leading_zeros = pow.hash.iter().take_while(|&&b| b == 0).count() * 8;
    assert!(
        leading_zeros >= pow.difficulty as usize,
        "difficulty 0 must accept a hash with zero leading zero bits"
    );
    assert!(meets_difficulty(&pow.hash, pow.difficulty));
    assert!(verifier.verify_against(&pow, &pow.hash.clone(), at(0)));
}

#[test]
fn invalid_proof_is_named_in_the_error() {
    let mut guard = guard_with(8);
    let pow = ProofOfWork { difficulty: 8, circuit_id: 1, nonce: 2, hash: vec![0; 32] };
    let e = guard.allocate(pow, at(0)).unwrap_err();
    assert_eq!(e.to_string(), "Resource allocation failed: Invalid proof-of-work");
}

#[test]
fn preimage_and_hash_of_a_proof() {
    assert_eq!(
        pow_preimage(0x0403_0201, 0x0C0B_0A09_0807_0605),
        vec![1, 2, 3, 4, 5, 6, 7, 8, 9, 10, 11, 12]
    );
    let expected = Sha256::digest([1u8, 2, 3, 4, 5, 6, 7, 8, 9, 10, 11, 12]).to_vec();
    assert_eq!(pow_hash(0x0403_0201, 0x0C0B_0A09_0807_0605), expected);
}

#[test]
fn leading_zeros_are_counted_in_bits() {
    assert!(meets_difficulty(&[0, 0, 1], 23));
    assert!(!meets_difficulty(&[0, 0, 1], 24));
    assert!(meets_difficulty(&[0, 0, 0x0F], 20));
    assert!(!meets_difficulty(&[0, 0, 0x1F], 20));
    assert!(!meets_difficulty(&[0x80, 0, 0], 1));
    assert!(meets_difficulty(&[0x7F, 0, 0], 1));
    assert!(meets_difficulty(&[], 0));
    assert!(meets_difficulty(&[0, 0], 16));
    assert!(!meets_difficulty(&[0, 0], u32::MAX));
}

#[test]
fn generation_starts_at_the_given_nonce() {
    let generator = PowGenerator::new(8);
    let start = u64::MAX - 3;
    let pow = generator.generate_from(5, start).unwrap();
    // No nonce on the way, beyond the last one round to zero, solves the puzzle.
    let mut nonce = start;
    while nonce != pow.nonce {
        assert!(!meets_difficulty(&pow_hash(5, nonce), 8));
        nonce = nonce.wrapping_add(1);
    }
    assert!(meets_difficulty(&pow_hash(5, nonce), 8));
}

#[test]
fn equality_in_constant_time() {
    assert!(constant_time_eq(&[1, 2, 3], &[1, 2, 3]));
    assert!(!constant_time_eq(&[1, 2, 3], &[1, 2, 4]));
    assert!(!constant_time_eq(&[1, 2, 3], &[1, 2]));
    assert!(constant_time_eq(&[], &[]));
}

#[test]
fn windows_stop_and_never_outgrow_their_size() {
    let mut window = CircuitWindow::new(2);
    assert!(window.deliver());
    assert!(window.deliver());
    assert!(!window.deliver());
    assert!(!window.can_send());
    assert_eq!(window.delivered, 2);
    window.process_sendme(1);
    assert_eq!(window.current_window, 1);
    window.process_sendme(usize::MAX);
    assert_eq!(window.current_window, 2);
    assert_eq!(window.usage_ratio(), Ratio::new(0, 2));
}

#[test]
fn allocation_under_a_number_in_use_keeps_the_books() {
    let mut guard = guard_with(0);
    let quota = 100 * 1024 * 1024;
    for i in 0..2u32 {
        let pow = proof_for(0, i);
        let hash = pow.hash.clone();
        guard.allocate_as(pow, &hash, 5, at(0)).unwrap();
    }
    assert_eq!(guard.memory_pool.allocated, 2 * quota);
    assert_eq!(guard.circuit_quotas.len(), 1);
    assert!(guard.release(5).is_ok());
    assert_eq!(guard.memory_pool.allocated, quota);
    assert!(guard.oom_handler.kill_queue.is_empty());
    // Releasing what is not there changes nothing.
    assert!(guard.release(5).is_ok());
    assert_eq!(guard.memory_pool.allocated, quota);
}

#[test]
fn windows_of_time_are_told_by_the_caller() {
    let mut cache = PowCache::new();
    cache.add_new(vec![1], at(0));
    cache.add_new(vec![2], at(50));
    cache.retain_recent(at(60), Duration { nanos: 20 });
    assert_eq!(cache.get(&[1]), None);
    assert_eq!(cache.get(&[2]), Some(at(50)));
}
