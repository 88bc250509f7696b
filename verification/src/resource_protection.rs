//! Resource Protection Module
//!
//! Implements countermeasures against Sniper attacks and resource exhaustion
//! including proof-of-work, memory limits, and circuit prioritization.

use crate::digest;
use crate::digest::sha256_digest;
use crate::maps;
use crate::maps::{seen, total};
use crate::names::NameMap;
use crate::random;
use crate::ratio::Ratio;
use crate::time::{elapsed, secs, Duration, Instant};
use crate::wire;
use crate::{CircuitAllocation, ProofOfWork, RoutingConfig, RoutingError, RoutingFailure};
use std::collections::HashMap;
use vstd::arithmetic::power2::{lemma_pow2_adds, lemma_pow2_pos, lemma_pow2_strictly_increases, pow2};
use vstd::prelude::*;
use vstd::string::*;

verus! {

/// Constant-time byte slice equality.  Returns false for mismatched lengths;
/// for equal lengths runs in time proportional to the slice length.
pub fn constant_time_eq(a: &[u8], b: &[u8]) -> (r: bool)
    ensures
        r == (a@ == b@),
{
    if a.len() != b.len() {
        return false;
    }
    let mut diff: u8 = 0;
    let mut i: usize = 0;
    while i < a.len()
        invariant
            a@.len() == b@.len(),
            i <= a@.len(),
            diff == 0 <==> forall|k: int| 0 <= k < i ==> a@[k] == b@[k],
        decreases a@.len() - i,
    {
        let x: u8 = a[i];
        let y: u8 = b[i];
        assert((diff | (x ^ y)) == 0u8 <==> diff == 0u8 && x == y) by (bit_vector);
        diff = diff | (x ^ y);
        i = i + 1;
    }
    proof {
        if diff == 0 {
            assert(a@ =~= b@);
        }
    }
    diff == 0
}

/// The `width` bytes of `value`, least significant first.
pub open spec fn little_endian(value: nat, width: nat) -> Seq<u8>
    decreases width,
{
    if width == 0 {
        Seq::empty()
    } else {
        seq![(value % 256) as u8] + little_endian(value / 256, (width - 1) as nat)
    }
}

/// Appends the `width` low bytes of `value`, least significant first.
fn push_little_endian(out: &mut Vec<u8>, value: u64, width: usize)
    ensures
        final(out)@ == old(out)@ + little_endian(value as nat, width as nat),
{
    let mut rest: u64 = value;
    let mut left: usize = width;
    assert(old(out)@ + little_endian(value as nat, width as nat) =~= out@ + little_endian(
        rest as nat,
        left as nat,
    ));
    while left > 0
        invariant
            old(out)@ + little_endian(value as nat, width as nat) == out@ + little_endian(
                rest as nat,
                left as nat,
            ),
        decreases left,
    {
        let ghost before = out@;
        let byte: u8 = (rest % 256) as u8;
        out.push(byte);
        proof {
            let tail = little_endian((rest / 256) as nat, (left - 1) as nat);
            assert(little_endian(rest as nat, left as nat) == seq![byte] + tail);
            assert(before + (seq![byte] + tail) =~= out@ + tail);
        }
        rest = rest / 256;
        left = left - 1;
    }
    assert(out@ + little_endian(rest as nat, 0) =~= out@);
}

/// What is hashed for a proof of work: the circuit number and the nonce, least
/// significant byte first.
pub open spec fn pow_input(circuit_id: u32, nonce: u64) -> Seq<u8> {
    little_endian(circuit_id as nat, 4) + little_endian(nonce as nat, 8)
}

/// The hash of a proof of work.
pub open spec fn pow_digest(circuit_id: u32, nonce: u64) -> Seq<u8> {
    sha256_digest(pow_input(circuit_id, nonce))
}

/// The bytes that are hashed for a proof of work.
pub fn pow_preimage(circuit_id: u32, nonce: u64) -> (r: Vec<u8>)
    ensures
        r@ == pow_input(circuit_id, nonce),
{
    let mut data: Vec<u8> = Vec::new();
    push_little_endian(&mut data, circuit_id as u64, 4);
    assert(data@ =~= little_endian(circuit_id as nat, 4));
    push_little_endian(&mut data, nonce, 8);
    data
}

/// Hashes a circuit number and a nonce.
pub fn pow_hash(circuit_id: u32, nonce: u64) -> (r: Vec<u8>)
    ensures
        r@ == pow_digest(circuit_id, nonce),
        r@.len() == 32,
{
    digest::sha256(pow_preimage(circuit_id, nonce).as_slice())
}

/// How many zero bytes stand at the front.
pub open spec fn zero_bytes(s: Seq<u8>) -> nat
    decreases s.len(),
{
    if s.len() > 0 && s[0] == 0 {
        1 + zero_bytes(s.skip(1))
    } else {
        0
    }
}

/// The zero bits at the front of a byte.
pub open spec fn zero_bits(byte: u8) -> nat {
    if byte >= 0x80 {
        0
    } else if byte >= 0x40 {
        1
    } else if byte >= 0x20 {
        2
    } else if byte >= 0x10 {
        3
    } else if byte >= 0x08 {
        4
    } else if byte >= 0x04 {
        5
    } else if byte >= 0x02 {
        6
    } else if byte >= 0x01 {
        7
    } else {
        8
    }
}

/// The zero bits at the front of a hash.
pub open spec fn leading_zeros(s: Seq<u8>) -> nat
    decreases s.len(),
{
    if s.len() == 0 {
        0
    } else if s[0] == 0 {
        8 + leading_zeros(s.skip(1))
    } else {
        zero_bits(s[0])
    }
}

/// A hash has at least the zero bits of its whole zero bytes, and no more than
/// eight for each byte.
pub proof fn lemma_leading_zeros_bounded(s: Seq<u8>)
    ensures
        8 * zero_bytes(s) <= leading_zeros(s) <= 8 * s.len(),
    decreases s.len(),
{
    if s.len() > 0 && s[0] == 0 {
        lemma_leading_zeros_bounded(s.skip(1));
    }
}

/// The first byte of a number weighs most.
proof fn lemma_first_byte(s: Seq<u8>)
    requires
        s.len() > 0,
    ensures
        wire::big_endian(s) == s[0] * pow2(8 * (s.len() - 1) as nat) + wire::big_endian(s.skip(1)),
        wire::big_endian(s.skip(1)) < pow2(8 * (s.len() - 1) as nat),
    decreases s.len(),
{
    vstd::arithmetic::power2::lemma2_to64();
    let n = (s.len() - 1) as nat;
    if n == 0 {
        reveal_with_fuel(wire::big_endian, 2);
        assert(s.skip(1) =~= Seq::<u8>::empty());
    } else {
        let less = s.drop_last();
        lemma_first_byte(less);
        let rest = s.skip(1);
        assert(rest.drop_last() =~= less.skip(1));
        assert(rest.last() == s.last());
        let p = pow2((8 * (n - 1)) as nat);
        lemma_pow2_adds((8 * (n - 1)) as nat, 8);
        let r = wire::big_endian(less.skip(1));
        let b = s[0];
        assert((b * p + r) * 256 == b * (p * 256) + r * 256) by (nonlinear_arith);
        assert(r * 256 + 255 < p * 256);
    }
}

/// A byte with `z` zero bits at its front is less than 2 to the power `8 - z` and,
/// unless it is zero, no less than 2 to the power `7 - z`.
pub proof fn law_zero_bits_of_a_byte(byte: u8)
    ensures
        zero_bits(byte) <= 8,
        byte < pow2((8 - zero_bits(byte)) as nat),
        byte == 0 <==> zero_bits(byte) == 8,
        byte != 0 ==> byte >= pow2((7 - zero_bits(byte)) as nat),
{
    vstd::arithmetic::power2::lemma2_to64();
}

/// A hash of `n` bytes meets the difficulty `d` exactly if it is less, as a number
/// with its most significant byte first, than 2 to the power `8 * n - d`.
#[verifier::rlimit(40)]
pub proof fn law_difficulty_bounds_the_hash(hash: Seq<u8>, difficulty: nat)
    ensures
        difficulty <= 8 * hash.len() ==> (leading_zeros(hash) >= difficulty <==> wire::big_endian(
            hash,
        ) < pow2((8 * hash.len() - difficulty) as nat)),
        difficulty > 8 * hash.len() ==> leading_zeros(hash) < difficulty,
    decreases hash.len(),
{
    vstd::arithmetic::power2::lemma2_to64();
    lemma_leading_zeros_bounded(hash);
    if hash.len() > 0 && difficulty <= 8 * hash.len() {
        let n = (hash.len() - 1) as nat;
        let rest = hash.skip(1);
        let p = pow2(8 * n);
        let r = wire::big_endian(rest);
        let b = hash[0];
        let bound = (8 * hash.len() - difficulty) as nat;
        lemma_first_byte(hash);
        if b == 0 {
            if difficulty > 8 {
                law_difficulty_bounds_the_hash(rest, (difficulty - 8) as nat);
            } else if difficulty < 8 {
                lemma_pow2_strictly_increases(8 * n, bound);
            }
        } else {
            let z = zero_bits(b);
            law_zero_bits_of_a_byte(b);
            if difficulty <= z {
                let q = pow2((8 - difficulty) as nat);
                lemma_pow2_adds((8 - difficulty) as nat, 8 * n);
                if difficulty < z {
                    lemma_pow2_strictly_increases((8 - z) as nat, (8 - difficulty) as nat);
                }
                assert(b * p + r < q * p) by (nonlinear_arith)
                    requires
                        b + 1 <= q,
                        r < p,
                ;
            } else {
                let q = pow2((7 - z) as nat);
                lemma_pow2_adds((7 - z) as nat, 8 * n);
                if difficulty > z + 1 {
                    lemma_pow2_strictly_increases(bound, (7 - z) as nat + 8 * n);
                }
                assert(b * p + r >= q * p) by (nonlinear_arith)
                    requires
                        b >= q,
                        r >= 0,
                        p >= 0,
                ;
            }
        }
    } else if hash.len() == 0 && difficulty == 0 {
        assert(wire::big_endian(hash) == 0);
    }
}

/// The bytes counted as zero are zero, and the one behind them, if there is one,
/// is not.
pub proof fn law_zero_bytes_are_zero(s: Seq<u8>)
    ensures
        zero_bytes(s) <= s.len(),
        forall|i: int| 0 <= i < zero_bytes(s) ==> s[i] == 0,
        zero_bytes(s) < s.len() ==> s[zero_bytes(s) as int] != 0,
    decreases s.len(),
{
    if s.len() > 0 && s[0] == 0 {
        let rest = s.skip(1);
        law_zero_bytes_are_zero(rest);
        assert forall|i: int| 0 <= i < zero_bytes(s) implies s[i] == 0 by {
            if i > 0 {
                assert(rest[i - 1] == s[i]);
            }
        }
        if zero_bytes(s) < s.len() {
            assert(rest[zero_bytes(rest) as int] == s[zero_bytes(s) as int]);
        }
    }
}

/// Bytes with the least significant first spell, read backwards, the number.
pub proof fn law_little_endian_round_trip(value: nat, width: nat)
    requires
        value < wire::pow256(width),
    ensures
        little_endian(value, width).len() == width,
        wire::big_endian(little_endian(value, width).reverse()) == value,
    decreases width,
{
    if width > 0 {
        let rest = little_endian(value / 256, (width - 1) as nat);
        law_little_endian_round_trip(value / 256, (width - 1) as nat);
        let all = little_endian(value, width);
        assert(all.reverse().drop_last() =~= rest.reverse());
        assert(all.reverse().last() == (value % 256) as u8);
    }
}

/// What is hashed is twelve bytes, and two proofs of work hash the same bytes only
/// for the same circuit and the same nonce.
pub proof fn law_every_proof_hashes_its_own_bytes(
    circuit_id: u32,
    nonce: u64,
    other_circuit: u32,
    other_nonce: u64,
)
    ensures
        pow_input(circuit_id, nonce).len() == 12,
        wire::big_endian(pow_input(circuit_id, nonce).take(4).reverse()) == circuit_id,
        wire::big_endian(pow_input(circuit_id, nonce).skip(4).reverse()) == nonce,
        pow_input(circuit_id, nonce) == pow_input(other_circuit, other_nonce) ==> circuit_id
            == other_circuit && nonce == other_nonce,
{
    assert(wire::pow256(4) == 0x1_0000_0000 && wire::pow256(8) == 0x1_0000_0000_0000_0000) by {
        reveal_with_fuel(wire::pow256, 9);
    }
    law_little_endian_round_trip(circuit_id as nat, 4);
    law_little_endian_round_trip(nonce as nat, 8);
    law_little_endian_round_trip(other_circuit as nat, 4);
    law_little_endian_round_trip(other_nonce as nat, 8);
    let s = pow_input(circuit_id, nonce);
    let t = pow_input(other_circuit, other_nonce);
    assert(s.take(4) =~= little_endian(circuit_id as nat, 4));
    assert(s.skip(4) =~= little_endian(nonce as nat, 8));
    assert(t.take(4) =~= little_endian(other_circuit as nat, 4));
    assert(t.skip(4) =~= little_endian(other_nonce as nat, 8));
}

fn count_zero_bits(byte: u8) -> (r: u64)
    ensures
        r == zero_bits(byte),
{
    if byte >= 0x80 {
        0
    } else if byte >= 0x40 {
        1
    } else if byte >= 0x20 {
        2
    } else if byte >= 0x10 {
        3
    } else if byte >= 0x08 {
        4
    } else if byte >= 0x04 {
        5
    } else if byte >= 0x02 {
        6
    } else if byte >= 0x01 {
        7
    } else {
        8
    }
}

fn count_zero_bytes(hash: &[u8]) -> (r: usize)
    ensures
        r == zero_bytes(hash@),
        r <= hash@.len(),
        leading_zeros(hash@) == 8 * r + leading_zeros(hash@.skip(r as int)),
        r < hash@.len() ==> hash@[r as int] != 0,
{
    let mut zeros: usize = 0;
    assert(hash@.skip(0) =~= hash@);
    while zeros < hash.len() && hash[zeros] == 0
        invariant
            zeros <= hash@.len(),
            zero_bytes(hash@) == zeros + zero_bytes(hash@.skip(zeros as int)),
            leading_zeros(hash@) == 8 * zeros + leading_zeros(hash@.skip(zeros as int)),
        decreases hash@.len() - zeros,
    {
        assert(hash@.skip(zeros as int).skip(1) =~= hash@.skip(zeros + 1));
        zeros = zeros + 1;
    }
    zeros
}

/// Whether `hash` has at least `difficulty` leading zero bits.
pub fn meets_difficulty(hash: &[u8], difficulty: u32) -> (r: bool)
    ensures
        r == (leading_zeros(hash@) >= difficulty),
        difficulty > 8 * hash@.len() ==> !r,
        difficulty <= 8 * hash@.len() ==> r == (wire::big_endian(hash@) < pow2(
            (8 * hash@.len() - difficulty) as nat,
        )),
{
    proof {
        law_difficulty_bounds_the_hash(hash@, difficulty as nat);
    }
    let zeros: usize = count_zero_bytes(hash);
    let more: u64 = if zeros < hash.len() {
        count_zero_bits(hash[zeros])
    } else {
        0
    };
    (zeros as u128) * 8 + more as u128 >= difficulty as u128
}

/// Whether the whole zero bytes at the front of `hash` make up `difficulty`
/// bits.
fn meets_in_whole_bytes(hash: &[u8], difficulty: u32) -> (r: bool)
    ensures
        r == (8 * zero_bytes(hash@) >= difficulty),
{
    (count_zero_bytes(hash) as u128) * 8 >= difficulty as u128
}

/// Memory pool
#[derive(Debug, Clone, Copy, PartialEq, Eq, Structural)]
pub struct MemoryPool {
    /// Bytes that there are.
    pub total_available: usize,
    /// Bytes that circuits have reserved.
    pub allocated: usize,
    /// Bytes for one circuit.
    pub circuit_limit: usize,
}

/// Circuit quota
#[derive(Debug, Clone, Copy, PartialEq, Eq, Structural)]
pub struct CircuitQuota {
    /// Bytes that the circuit may hold.
    pub max_memory: usize,
    /// Bandwidth that the circuit may use.
    pub max_bandwidth: u64,
    /// Bytes that the circuit holds.
    pub current_memory: usize,
    /// Bandwidth that the circuit uses.
    pub current_bandwidth: u64,
}

/// A map from accepted hashes to the time of their acceptance.
#[derive(Debug, Clone)]
pub struct PowCache {
    entries: Vec<(Vec<u8>, Instant)>,
}

impl PowCache {
    /// Whether no hash stands twice.
    pub closed spec fn wf(self) -> bool {
        forall|i: int, j: int|
            0 <= i < j < self.entries@.len() ==> (#[trigger] self.entries@[i]).0@ != (
            #[trigger] self.entries@[j]).0@
    }

    closed spec fn holds(self, hash: Seq<u8>) -> bool {
        exists|i: int| 0 <= i < self.entries@.len() && (#[trigger] self.entries@[i]).0@ == hash
    }

    closed spec fn position(self, hash: Seq<u8>) -> int {
        choose|i: int| 0 <= i < self.entries@.len() && (#[trigger] self.entries@[i]).0@ == hash
    }

    /// The contents as a mathematical map.
    pub closed spec fn view(self) -> Map<Seq<u8>, Instant> {
        Map::new(
            |hash: Seq<u8>| self.holds(hash),
            |hash: Seq<u8>| self.entries@[self.position(hash)].1,
        )
    }

    proof fn lemma_entry(self, i: int)
        requires
            self.wf(),
            0 <= i < self.entries@.len(),
        ensures
            self@.dom().contains(self.entries@[i].0@),
            self@[self.entries@[i].0@] == self.entries@[i].1,
    {
        let j = self.position(self.entries@[i].0@);
        assert(self.holds(self.entries@[i].0@));
        assert(i == j);
    }

    /// The empty map.
    pub fn new() -> (r: PowCache)
        ensures
            r.wf(),
            r@ == Map::<Seq<u8>, Instant>::empty(),
    {
        let r = PowCache { entries: Vec::new() };
        assert(r@ =~= Map::<Seq<u8>, Instant>::empty());
        r
    }

    /// When `hash` was accepted, if it was.
    pub fn get(&self, hash: &[u8]) -> (r: Option<Instant>)
        requires
            self.wf(),
        ensures
            match r {
                Some(t) => self@.dom().contains(hash@) && t == self@[hash@],
                None => !self@.dom().contains(hash@),
            },
    {
        let mut i: usize = 0;
        while i < self.entries.len()
            invariant
                self.wf(),
                i <= self.entries@.len(),
                forall|k: int| 0 <= k < i ==> (#[trigger] self.entries@[k]).0@ != hash@,
            decreases self.entries@.len() - i,
        {
            if constant_time_eq(self.entries[i].0.as_slice(), hash) {
                proof {
                    self.lemma_entry(i as int);
                }
                return Some(self.entries[i].1);
            }
            i = i + 1;
        }
        None
    }

    /// Forgets what was accepted `window` ago or longer.
    pub fn retain_recent(&mut self, now: Instant, window: Duration)
        requires
            old(self).wf(),
        ensures
            final(self).wf(),
            final(self)@ == recent_only(old(self)@, now, window),
    {
        let mut i: usize = 0;
        while i < self.entries.len()
            invariant
                self.wf(),
                i <= self.entries@.len(),
                forall|h: Seq<u8>| #[trigger]
                    self@.dom().contains(h) ==> old(self)@.dom().contains(h) && self@[h] == old(
                        self,
                    )@[h],
                forall|h: Seq<u8>| #[trigger]
                    old(self)@.dom().contains(h) && elapsed(now, old(self)@[h]) < window.nanos
                        ==> self@.dom().contains(h),
                forall|k: int|
                    0 <= k < i ==> elapsed(now, (#[trigger] self.entries@[k]).1) < window.nanos,
            decreases self.entries@.len() - i,
        {
            if now.duration_since(self.entries[i].1).nanos < window.nanos {
                i = i + 1;
            } else {
                let ghost before = *self;
                self.entries.remove(i);
                proof {
                    before.lemma_entry(i as int);
                    lemma_removed(before, *self, i as int);
                }
            }
        }
        proof {
            assert forall|h: Seq<u8>| #[trigger] self@.dom().contains(h) implies elapsed(
                now,
                old(self)@[h],
            ) < window.nanos by {
                assert(self.holds(h));
                let k = self.position(h);
                self.lemma_entry(k);
            }
            assert(self@ =~= recent_only(old(self)@, now, window));
        }
    }

    /// Adds a hash that is not there yet.
    pub fn add_new(&mut self, hash: Vec<u8>, now: Instant)
        requires
            old(self).wf(),
            !old(self)@.dom().contains(hash@),
        ensures
            final(self).wf(),
            final(self)@ == old(self)@.insert(hash@, now),
    {
        let ghost before = *self;
        let ghost h = hash@;
        self.entries.push((hash, now));
        proof {
            let n = before.entries@.len() as int;
            assert forall|i: int| 0 <= i < n implies (#[trigger] self.entries@[i]).0@ != h by {
                assert(self.entries@[i] == before.entries@[i]);
                assert(before.holds(before.entries@[i].0@));
            }
            assert forall|i: int, j: int|
                0 <= i < j < self.entries@.len() implies (#[trigger] self.entries@[i]).0@ != (
            #[trigger] self.entries@[j]).0@ by {
                assert(self.entries@[i] == before.entries@[i]);
                if j < n {
                    assert(self.entries@[j] == before.entries@[j]);
                }
            }
            self.lemma_entry(n);
            assert forall|g: Seq<u8>| g != h implies self.holds(g) == before.holds(g) by {
                if before.holds(g) {
                    let k = before.position(g);
                    assert(self.entries@[k] == before.entries@[k]);
                }
                if self.holds(g) {
                    let k = self.position(g);
                    assert(self.entries@[k] == before.entries@[k]);
                }
            }
            assert forall|g: Seq<u8>| before.holds(g) implies self@[g] == before@[g] by {
                let k = before.position(g);
                assert(self.entries@[k] == before.entries@[k]);
                self.lemma_entry(k);
                before.lemma_entry(k);
            }
            assert(self@ =~= before@.insert(h, now));
        }
    }
}

proof fn lemma_removed(before: PowCache, after: PowCache, i: int)
    requires
        before.wf(),
        0 <= i < before.entries@.len(),
        after.entries@ == before.entries@.remove(i),
    ensures
        after.wf(),
        after@ == before@.remove(before.entries@[i].0@),
{
    let old_at = |k: int| if k < i {
        k
    } else {
        k + 1
    };
    assert forall|k: int| 0 <= k < after.entries@.len() implies #[trigger] after.entries@[k]
        == before.entries@[old_at(k)] by {}
    assert(after.wf()) by {
        assert forall|k: int, j: int|
            0 <= k < j < after.entries@.len() implies (#[trigger] after.entries@[k]).0@ != (
        #[trigger] after.entries@[j]).0@ by {
            assert(before.entries@[old_at(k)].0@ != before.entries@[old_at(j)].0@);
        }
    }
    let gone = before.entries@[i].0@;
    assert forall|g: Seq<u8>| after.holds(g) == (before.holds(g) && g != gone) by {
        if after.holds(g) {
            let k = after.position(g);
            assert(before.entries@[old_at(k)].0@ == g);
            assert(before.entries@[old_at(k)].0@ != before.entries@[i].0@);
        }
        if before.holds(g) && g != gone {
            let k = before.position(g);
            let j = if k < i {
                k
            } else {
                k - 1
            };
            assert(after.entries@[j] == before.entries@[k]);
        }
    }
    assert forall|g: Seq<u8>| after.holds(g) implies after@[g] == before@[g] by {
        let k = after.position(g);
        after.lemma_entry(k);
        before.lemma_entry(old_at(k));
    }
    assert(after@ =~= before@.remove(gone));
}

/// The entries accepted less than `window` ago.
pub open spec fn recent_only(m: Map<Seq<u8>, Instant>, now: Instant, window: Duration) -> Map<
    Seq<u8>,
    Instant,
> {
    m.restrict(
        Set::new(|h: Seq<u8>| m.dom().contains(h) && elapsed(now, m[h]) < window.nanos),
    )
}

/// Proof-of-work verifier
#[derive(Debug, Clone)]
pub struct PowVerifier {
    /// Current difficulty
    pub difficulty: u32,
    /// Verification cache, keyed by the full hash and not by the nonce, so that
    /// the same nonce cannot be replayed with another submitted hash.
    pub verified_cache: PowCache,
}

/// How long a verified proof of work is remembered to reject replays, in
/// nanoseconds: five minutes.
pub const REPLAY_WINDOW_NANOS: u64 = 300_000_000_000;

impl PowVerifier {
    /// Whether the cache is sound.
    pub open spec fn wf(self) -> bool {
        self.verified_cache.wf()
    }

    /// Whether `hash` was accepted less than the replay window ago.
    pub open spec fn replayed(self, hash: Seq<u8>, now: Instant) -> bool {
        self.verified_cache@.dom().contains(hash) && elapsed(now, self.verified_cache@[hash])
            < REPLAY_WINDOW_NANOS
    }

    /// Whether a proof is accepted, where the hash of its circuit number and
    /// nonce is `computed`: the submitted hash is that hash, it meets the
    /// verifier's own difficulty, and it has not been used lately.
    pub open spec fn accepts(self, pow: ProofOfWork, computed: Seq<u8>, now: Instant) -> bool {
        &&& pow.hash@ == computed
        &&& leading_zeros(computed) >= self.difficulty
        &&& !self.replayed(computed, now)
    }

    /// The cache after a proof has been accepted.
    pub open spec fn cache_with(self, hash: Seq<u8>, now: Instant) -> Map<Seq<u8>, Instant> {
        recent_only(
            self.verified_cache@,
            now,
            Duration { nanos: REPLAY_WINDOW_NANOS },
        ).insert(hash, now)
    }

    /// Verify proof-of-work.
    ///
    /// A verified proof is recorded in the replay cache. Returns `true` only if
    /// the recomputed hash matches, meets the verifier's *own* difficulty
    /// threshold, and has not been used recently.
    pub fn verify(&mut self, pow: &ProofOfWork, now: Instant) -> (r: bool)
        requires
            old(self).wf(),
        ensures
            final(self).wf(),
            final(self).difficulty == old(self).difficulty,
            r == old(self).accepts(*pow, pow_digest(pow.circuit_id, pow.nonce), now),
            final(self).verified_cache@ == (if r {
                old(self).cache_with(pow.hash@, now)
            } else {
                old(self).verified_cache@
            }),
    {
        let computed = pow_hash(pow.circuit_id, pow.nonce);
        self.verify_against(pow, computed.as_slice(), now)
    }

    /// Verifies a proof of work against the hash of its circuit number and
    /// nonce.
    pub fn verify_against(&mut self, pow: &ProofOfWork, computed: &[u8], now: Instant) -> (r: bool)
        requires
            old(self).wf(),
        ensures
            final(self).wf(),
            final(self).difficulty == old(self).difficulty,
            r == old(self).accepts(*pow, computed@, now),
            final(self).verified_cache@ == (if r {
                old(self).cache_with(pow.hash@, now)
            } else {
                old(self).verified_cache@
            }),
    {
        if !constant_time_eq(pow.hash.as_slice(), computed) {
            return false;
        }
        if !meets_difficulty(computed, self.difficulty) {
            return false;
        }
        match self.verified_cache.get(pow.hash.as_slice()) {
            Some(ts) => {
                if now.duration_since(ts).nanos < REPLAY_WINDOW_NANOS {
                    return false;
                }
            },
            None => {},
        }
        self.verified_cache.retain_recent(now, Duration { nanos: REPLAY_WINDOW_NANOS });
        let hash = bytes_of(pow.hash.as_slice());
        self.verified_cache.add_new(hash, now);
        true
    }

    /// Update difficulty based on network conditions: up by one, to at most
    /// thirty-two, when the actual rate is more than a fifth above the target,
    /// and down by one when it is more than a fifth below.
    pub fn adjust_difficulty(&mut self, target_allocation_rate: u64, actual_rate: u64)
        ensures
            final(self).verified_cache == old(self).verified_cache,
            final(self).difficulty == (if 5 * actual_rate > 6 * target_allocation_rate {
                if old(self).difficulty < 32 {
                    old(self).difficulty + 1
                } else {
                    32
                }
            } else if 5 * actual_rate < 4 * target_allocation_rate && old(self).difficulty > 0 {
                old(self).difficulty - 1
            } else {
                old(self).difficulty as int
            }),
            final(self).difficulty > old(self).difficulty ==> actual_rate > target_allocation_rate
                && final(self).difficulty <= 32,
            final(self).difficulty < old(self).difficulty ==> actual_rate < target_allocation_rate
                || old(self).difficulty > 32,
            actual_rate == target_allocation_rate ==> final(self).difficulty == old(
                self,
            ).difficulty,
    {
        let target: u128 = target_allocation_rate as u128;
        let actual: u128 = actual_rate as u128;
        if 5 * actual > 6 * target {
            self.difficulty =
            if self.difficulty < 32 {
                self.difficulty + 1
            } else {
                32
            };
        } else if 5 * actual < 4 * target {
            self.difficulty = self.difficulty.saturating_sub(1);
        }
    }
}

fn bytes_of(s: &[u8]) -> (r: Vec<u8>)
    ensures
        r@ == s@,
{
    let mut r: Vec<u8> = Vec::new();
    r.extend_from_slice(s);
    assert(r@ =~= s@);
    r
}

/// The claimed difficulty plays no part in the acceptance of a proof.
pub proof fn law_claimed_difficulty_is_ignored(
    v: PowVerifier,
    honest: ProofOfWork,
    claimed: ProofOfWork,
    computed: Seq<u8>,
    now: Instant,
)
    requires
        honest.hash@ == claimed.hash@,
        honest.circuit_id == claimed.circuit_id,
        honest.nonce == claimed.nonce,
    ensures
        v.accepts(honest, computed, now) == v.accepts(claimed, computed, now),
{
}

/// Once a proof has been accepted it is not accepted again within the replay
/// window.
pub proof fn law_no_replay(
    before: PowVerifier,
    after: PowVerifier,
    pow: ProofOfWork,
    computed: Seq<u8>,
    first: Instant,
    second: Instant,
)
    requires
        before.accepts(pow, computed, first),
        after.verified_cache@ == before.cache_with(pow.hash@, first),
        elapsed(second, first) < REPLAY_WINDOW_NANOS,
    ensures
        !after.accepts(pow, computed, second),
{
}

/// A proof is accepted, where its hash was never seen, exactly if it submits the
/// hash of its circuit and nonce, and that hash, as a number of 256 bits, is less
/// than 2 to the power 256 less the difficulty.
pub proof fn law_accepted_hashes_are_small(
    v: PowVerifier,
    pow: ProofOfWork,
    computed: Seq<u8>,
    now: Instant,
)
    requires
        computed.len() == 32,
        !v.verified_cache@.dom().contains(computed),
    ensures
        v.accepts(pow, computed, now) <==> pow.hash@ == computed && v.difficulty <= 256
            && wire::big_endian(pow.hash@) < pow2((256 - v.difficulty) as nat),
{
    law_difficulty_bounds_the_hash(computed, v.difficulty as nat);
}

/// An accepted proof is accepted once more exactly when five minutes have passed,
/// and until then the verifier goes on accepting every other proof that it would
/// have accepted.
pub proof fn law_five_minutes_between_uses(
    before: PowVerifier,
    after: PowVerifier,
    pow: ProofOfWork,
    other: ProofOfWork,
    computed: Seq<u8>,
    first: Instant,
    second: Instant,
)
    requires
        before.accepts(pow, pow.hash@, first),
        after.difficulty == before.difficulty,
        after.verified_cache@ == before.cache_with(pow.hash@, first),
        first.nanos <= second.nanos,
    ensures
        after.accepts(pow, pow.hash@, second) <==> second.nanos - first.nanos >= secs(300),
        other.hash@ != pow.hash@ ==> after.accepts(other, computed, second) == before.accepts(
            other,
            computed,
            second,
        ),
{
}

/// The cache holds, besides the accepted hash, what it held and was accepted less
/// than five minutes ago.
pub proof fn law_the_cache_forgets(v: PowVerifier, hash: Seq<u8>, now: Instant, other: Seq<u8>)
    requires
        other != hash,
    ensures
        v.cache_with(hash, now).dom().contains(hash) && v.cache_with(hash, now)[hash] == now,
        v.cache_with(hash, now).dom().contains(other) <==> v.verified_cache@.dom().contains(other)
            && now.nanos - v.verified_cache@[other].nanos < secs(300),
        v.cache_with(hash, now).dom().contains(other) ==> v.cache_with(hash, now)[other]
            == v.verified_cache@[other],
{
}

/// A nonce solves a puzzle exactly if every byte of the hash that the difficulty
/// reaches into, be it by one bit, is zero.
pub proof fn law_solutions_have_zero_bytes(circuit_id: u32, nonce: u64, difficulty: u32)
    requires
        pow_digest(circuit_id, nonce).len() == 32,
    ensures
        solves(circuit_id, nonce, difficulty) <==> difficulty <= 256 && forall|i: int|
            0 <= i && 8 * i < difficulty ==> #[trigger] pow_digest(circuit_id, nonce)[i] == 0,
{
    let s = pow_digest(circuit_id, nonce);
    law_zero_bytes_are_zero(s);
    if difficulty <= 256 && 8 * zero_bytes(s) < difficulty {
        assert(s[zero_bytes(s) as int] != 0);
    }
}

/// A proof that a generator makes is accepted by a verifier that asks for no more
/// than the generator's difficulty and has not seen it.
pub proof fn law_generated_is_accepted(
    v: PowVerifier,
    pow: ProofOfWork,
    difficulty: u32,
    now: Instant,
)
    requires
        pow.hash@ == pow_digest(pow.circuit_id, pow.nonce),
        solves(pow.circuit_id, pow.nonce, difficulty),
        v.difficulty <= difficulty,
        !v.verified_cache@.dom().contains(pow.hash@),
    ensures
        v.accepts(pow, pow_digest(pow.circuit_id, pow.nonce), now),
{
    lemma_leading_zeros_bounded(pow.hash@);
}

/// Rate limiter for circuit creation
pub struct RateLimiter {
    /// Max circuits per client per minute
    pub max_per_minute: u32,
    /// Client circuit counts
    pub client_counts: NameMap<Vec<Instant>>,
}

/// Out-of-memory handler
#[derive(Debug, Clone)]
pub struct OomHandler {
    /// Share of the memory in use from which circuits are killed
    pub threshold: Ratio,
    /// Kill queue of circuits and their verified difficulties, sorted so that
    /// the lowest difficulties come first under memory pressure.
    pub kill_queue: Vec<(u32, u32)>,
}

/// Whether difficulties never fall along a kill queue.
pub open spec fn by_difficulty(queue: Seq<(u32, u32)>) -> bool {
    forall|i: int, j: int|
        0 <= i < j < queue.len() ==> (#[trigger] queue[i]).1 <= (#[trigger] queue[j]).1
}

/// Whether a circuit stands in a kill queue.
pub open spec fn queued(queue: Seq<(u32, u32)>, circuit_id: u32) -> bool {
    exists|i: int| 0 <= i < queue.len() && (#[trigger] queue[i]).0 == circuit_id
}

/// Where a circuit of `difficulty` goes in a kill queue: behind all that are
/// not harder.
pub open spec fn kill_place(queue: Seq<(u32, u32)>, difficulty: u32) -> nat
    decreases queue.len(),
{
    if queue.len() == 0 || queue.last().1 <= difficulty {
        queue.len()
    } else {
        kill_place(queue.drop_last(), difficulty)
    }
}

/// A kill queue with one more circuit.
pub open spec fn with_victim(queue: Seq<(u32, u32)>, circuit_id: u32, difficulty: u32) -> Seq<
    (u32, u32),
> {
    queue.insert(kill_place(queue, difficulty) as int, (circuit_id, difficulty))
}

/// Entries of a kill queue for other circuits than this one.
pub open spec fn other_circuit(circuit_id: u32) -> spec_fn((u32, u32)) -> bool {
    |p: (u32, u32)| p.0 != circuit_id
}

proof fn lemma_kill_place(queue: Seq<(u32, u32)>, difficulty: u32)
    requires
        by_difficulty(queue),
    ensures
        kill_place(queue, difficulty) <= queue.len(),
        forall|i: int|
            0 <= i < kill_place(queue, difficulty) ==> (#[trigger] queue[i]).1 <= difficulty,
        forall|i: int|
            kill_place(queue, difficulty) <= i < queue.len() ==> (#[trigger] queue[i]).1
                > difficulty,
    decreases queue.len(),
{
    if queue.len() > 0 && queue.last().1 > difficulty {
        let shorter = queue.drop_last();
        assert(by_difficulty(shorter));
        lemma_kill_place(shorter, difficulty);
        assert forall|i: int| 0 <= i < kill_place(queue, difficulty) implies (#[trigger] queue[i]).1
            <= difficulty by {
            assert(shorter[i] == queue[i]);
        }
        assert forall|i: int| kill_place(queue, difficulty) <= i < queue.len() implies (
        #[trigger] queue[i]).1 > difficulty by {
            if i < shorter.len() {
                assert(shorter[i] == queue[i]);
            }
        }
    }
}

proof fn lemma_with_victim(queue: Seq<(u32, u32)>, circuit_id: u32, difficulty: u32)
    requires
        by_difficulty(queue),
    ensures
        by_difficulty(with_victim(queue, circuit_id, difficulty)),
        forall|id: u32| #[trigger]
            queued(with_victim(queue, circuit_id, difficulty), id) <==> queued(queue, id) || id
                == circuit_id,
{
    lemma_kill_place(queue, difficulty);
    let p = kill_place(queue, difficulty) as int;
    let more = with_victim(queue, circuit_id, difficulty);
    assert(more[p] == (circuit_id, difficulty));
    assert forall|i: int| 0 <= i < queue.len() implies more[if i < p {
        i
    } else {
        i + 1
    }] == #[trigger] queue[i] by {}
    assert forall|i: int, j: int| 0 <= i < j < more.len() implies (#[trigger] more[i]).1 <= (
    #[trigger] more[j]).1 by {
        let a = if i < p {
            i
        } else {
            i - 1
        };
        let b = if j < p {
            j
        } else {
            j - 1
        };
        if i != p {
            assert(more[i] == queue[a]);
        }
        if j != p {
            assert(more[j] == queue[b]);
        }
    }
    assert forall|id: u32| #[trigger] queued(more, id) <==> queued(queue, id) || id
        == circuit_id by {
        if queued(queue, id) {
            let i = choose|i: int| 0 <= i < queue.len() && (#[trigger] queue[i]).0 == id;
            let k = if i < p {
                i
            } else {
                i + 1
            };
            assert(more[k] == queue[i]);
        }
        if queued(more, id) {
            let i = choose|i: int| 0 <= i < more.len() && (#[trigger] more[i]).0 == id;
            if i < p {
                assert(more[i] == queue[i]);
            } else if i > p {
                assert(more[i] == queue[i - 1]);
            }
        }
    }
}

/// The memory of each circuit.
pub open spec fn memory_of(quotas: Map<u32, CircuitQuota>) -> spec_fn(u32) -> int {
    |id: u32| quotas[id].max_memory as int
}

/// The memory that all circuits have reserved.
pub open spec fn reserved(quotas: Map<u32, CircuitQuota>) -> int {
    total(quotas.dom(), memory_of(quotas))
}

proof fn lemma_reserved_remove(quotas: Map<u32, CircuitQuota>, id: u32)
    requires
        quotas.dom().finite(),
        quotas.dom().contains(id),
    ensures
        reserved(quotas) == quotas[id].max_memory + reserved(quotas.remove(id)),
        0 <= reserved(quotas.remove(id)),
{
    let rest = quotas.remove(id);
    maps::lemma_total_remove(quotas.dom(), id, memory_of(quotas));
    assert(rest.dom() =~= quotas.dom().remove(id));
    maps::lemma_total_same(rest.dom(), memory_of(quotas), memory_of(rest));
    maps::lemma_total_part(Set::empty(), rest.dom(), memory_of(rest));
}

proof fn lemma_reserved_insert(quotas: Map<u32, CircuitQuota>, id: u32, quota: CircuitQuota)
    requires
        quotas.dom().finite(),
    ensures
        reserved(quotas.insert(id, quota)) == quota.max_memory + reserved(quotas.remove(id)),
{
    let more = quotas.insert(id, quota);
    lemma_reserved_remove(more, id);
    assert(more.remove(id) =~= quotas.remove(id));
}

proof fn lemma_reserved_empty()
    ensures
        reserved(Map::<u32, CircuitQuota>::empty()) == 0,
{
    assert(Map::<u32, CircuitQuota>::empty().dom() =~= Set::<u32>::empty());
}

/// The memory quota for a verified difficulty: a hundred megabytes, and ten
/// more for each bit.
pub open spec fn memory_quota(difficulty: u32) -> int {
    104_857_600 + difficulty * 10_485_760
}

/// The bandwidth quota for a verified difficulty: a megabyte per second, and
/// half a megabyte more for each bit.
pub open spec fn bandwidth_quota(difficulty: u32) -> int {
    1_048_576 + difficulty * 524_288
}

/// Resource guard for protecting against resource exhaustion
pub struct ResourceGuard {
    /// Configuration
    pub config: RoutingConfig,
    /// Memory pool
    pub memory_pool: MemoryPool,
    /// Circuit quotas
    pub circuit_quotas: HashMap<u32, CircuitQuota>,
    /// Proof-of-work verifier
    pub pow_verifier: PowVerifier,
    /// Rate limiter
    pub rate_limiter: RateLimiter,
    /// Out-of-memory handler
    pub oom_handler: OomHandler,
}

/// Default difficulty (leading zero bits) required to allocate a circuit.
pub const DEFAULT_POW_DIFFICULTY: u32 = 20;

impl ResourceGuard {
    /// Whether what the circuits have reserved is accounted for and no more
    /// than there is, and the kill queue holds exactly the circuits, in order.
    pub open spec fn wf(self) -> bool {
        &&& self.pow_verifier.wf()
        &&& self.rate_limiter.client_counts.wf()
        &&& reserved(self.circuit_quotas@) <= self.memory_pool.allocated
        &&& self.memory_pool.allocated <= self.memory_pool.total_available
        &&& by_difficulty(self.oom_handler.kill_queue@)
        &&& forall|id: u32| #[trigger]
            self.circuit_quotas@.dom().contains(id) <==> queued(self.oom_handler.kill_queue@, id)
    }

    /// Whether nothing is allocated but what the circuits have reserved.
    pub open spec fn exact(self) -> bool {
        self.memory_pool.allocated == reserved(self.circuit_quotas@)
    }

    /// Create new resource guard with the default difficulty.
    pub fn new(config: RoutingConfig) -> (r: ResourceGuard)
        ensures
            r.wf(),
            r.exact(),
            r.is_new(config, DEFAULT_POW_DIFFICULTY),
    {
        Self::with_difficulty(config, DEFAULT_POW_DIFFICULTY)
    }

    /// Whether the guard is new: nothing is allocated.
    pub open spec fn is_new(self, config: RoutingConfig, difficulty: u32) -> bool {
        &&& self.config == config
        &&& self.memory_pool == (MemoryPool {
            total_available: 1_073_741_824,
            allocated: 0,
            circuit_limit: 104_857_600,
        })
        &&& self.circuit_quotas@ == Map::<u32, CircuitQuota>::empty()
        &&& self.pow_verifier.difficulty == difficulty
        &&& self.pow_verifier.verified_cache@ == Map::<Seq<u8>, Instant>::empty()
        &&& self.rate_limiter.max_per_minute == 10
        &&& self.rate_limiter.client_counts@ == Map::<Seq<char>, Vec<Instant>>::empty()
        &&& self.oom_handler.threshold == (Ratio { num: 9, den: 10 })
        &&& self.oom_handler.kill_queue@ == Seq::<(u32, u32)>::empty()
    }

    /// Create a resource guard with an explicit difficulty (leading zero bits).
    pub fn with_difficulty(config: RoutingConfig, difficulty: u32) -> (r: ResourceGuard)
        ensures
            r.wf(),
            r.exact(),
            r.is_new(config, difficulty),
    {
        let r = ResourceGuard {
            config,
            memory_pool: MemoryPool {
                total_available: 1024 * 1024 * 1024,
                allocated: 0,
                circuit_limit: 100 * 1024 * 1024,
            },
            circuit_quotas: HashMap::new(),
            pow_verifier: PowVerifier { difficulty, verified_cache: PowCache::new() },
            rate_limiter: RateLimiter { max_per_minute: 10, client_counts: NameMap::new() },
            oom_handler: OomHandler { threshold: Ratio::new(9, 10), kill_queue: Vec::new() },
        };
        proof {
            lemma_reserved_empty();
            assert(r.circuit_quotas@ =~= Map::<u32, CircuitQuota>::empty());
        }
        r
    }

    /// Whether a greater share of the memory is allocated than the threshold.
    pub open spec fn under_pressure(self) -> bool {
        let usage = Ratio {
            num: self.memory_pool.allocated as u64,
            den: self.memory_pool.total_available as u64,
        };
        usage.above(self.oom_handler.threshold)
    }

    /// Kills the queued circuits under memory pressure, lowest difficulties
    /// first, and frees their reserved memory back into the pool.
    pub fn relieve_pressure(&mut self)
        requires
            old(self).wf(),
        ensures
            final(self).wf(),
            final(self).config == old(self).config,
            final(self).pow_verifier == old(self).pow_verifier,
            final(self).rate_limiter == old(self).rate_limiter,
            final(self).oom_handler.threshold == old(self).oom_handler.threshold,
            final(self).memory_pool.total_available == old(self).memory_pool.total_available,
            final(self).memory_pool.circuit_limit == old(self).memory_pool.circuit_limit,
            if old(self).under_pressure() {
                &&& final(self).circuit_quotas@ == Map::<u32, CircuitQuota>::empty()
                &&& final(self).oom_handler.kill_queue@ == Seq::<(u32, u32)>::empty()
                &&& final(self).memory_pool.allocated == old(self).memory_pool.allocated - reserved(
                    old(self).circuit_quotas@,
                )
            } else {
                &&& final(self).circuit_quotas@ == old(self).circuit_quotas@
                &&& final(self).oom_handler.kill_queue@ == old(self).oom_handler.kill_queue@
                &&& final(self).memory_pool == old(self).memory_pool
            },
    {
        let usage = Ratio::new(
            self.memory_pool.allocated as u64,
            self.memory_pool.total_available as u64,
        );
        if !usage.exceeds(&self.oom_handler.threshold) {
            return ;
        }
        let ghost queue = self.oom_handler.kill_queue@;
        let mut i: usize = 0;
        while i < self.oom_handler.kill_queue.len()
            invariant
                i <= queue.len(),
                queue == self.oom_handler.kill_queue@,
                self.circuit_quotas@.dom().finite(),
                reserved(self.circuit_quotas@) <= self.memory_pool.allocated,
                self.memory_pool.allocated - reserved(self.circuit_quotas@) == old(
                    self,
                ).memory_pool.allocated - reserved(old(self).circuit_quotas@),
                self.memory_pool.allocated <= self.memory_pool.total_available,
                self.memory_pool.total_available == old(self).memory_pool.total_available,
                self.memory_pool.circuit_limit == old(self).memory_pool.circuit_limit,
                self.config == old(self).config,
                self.pow_verifier == old(self).pow_verifier,
                self.rate_limiter == old(self).rate_limiter,
                self.oom_handler.threshold == old(self).oom_handler.threshold,
                forall|id: u32| #[trigger]
                    self.circuit_quotas@.dom().contains(id) ==> queued(queue, id),
                forall|k: int|
                    0 <= k < i ==> !self.circuit_quotas@.dom().contains(#[trigger] queue[k].0),
            decreases queue.len() - i,
        {
            let circuit_id: u32 = self.oom_handler.kill_queue[i].0;
            let ghost before = self.circuit_quotas@;
            match self.circuit_quotas.remove(&circuit_id) {
                Some(quota) => {
                    proof {
                        lemma_reserved_remove(before, circuit_id);
                    }
                    self.memory_pool.allocated =
                    self.memory_pool.allocated.saturating_sub(quota.max_memory);
                },
                None => {
                    assert(self.circuit_quotas@ =~= before);
                },
            }
            i = i + 1;
        }
        self.oom_handler.kill_queue = Vec::new();
        proof {
            assert forall|id: u32| !#[trigger] self.circuit_quotas@.dom().contains(id) by {
                if self.circuit_quotas@.dom().contains(id) {
                    let k = choose|k: int| 0 <= k < queue.len() && (#[trigger] queue[k]).0 == id;
                }
            }
            assert(self.circuit_quotas@ =~= Map::<u32, CircuitQuota>::empty());
            lemma_reserved_empty();
        }
    }

    /// What an allocation does, where the hash of the proof is `computed` and
    /// the new circuit gets the number `circuit_id`.
    pub open spec fn allocates(
        before: ResourceGuard,
        after: ResourceGuard,
        pow: ProofOfWork,
        computed: Seq<u8>,
        circuit_id: u32,
        now: Instant,
        r: Result<CircuitAllocation, RoutingError>,
    ) -> bool {
        let claimed = pow.difficulty;
        let own = before.pow_verifier.difficulty;
        let difficulty = if claimed < own {
            claimed
        } else {
            own
        };
        let memory = memory_quota(difficulty);
        let accepted = before.pow_verifier.accepts(pow, computed, now);
        let fits = before.memory_pool.allocated + memory <= before.memory_pool.total_available;
        &&& after.config == before.config
        &&& after.rate_limiter == before.rate_limiter
        &&& after.oom_handler.threshold == before.oom_handler.threshold
        &&& after.memory_pool.total_available == before.memory_pool.total_available
        &&& after.memory_pool.circuit_limit == before.memory_pool.circuit_limit
        &&& after.pow_verifier.difficulty == own
        &&& after.pow_verifier.verified_cache@ == (if accepted {
            before.pow_verifier.cache_with(computed, now)
        } else {
            before.pow_verifier.verified_cache@
        })
        &&& if accepted && fits {
            &&& r matches Ok(a) && a.circuit_id == circuit_id && a.memory_quota == memory
                && a.bandwidth_quota == bandwidth_quota(difficulty)
            &&& after.memory_pool.allocated == before.memory_pool.allocated + memory
            &&& after.circuit_quotas@ == before.circuit_quotas@.insert(
                circuit_id,
                CircuitQuota {
                    max_memory: memory as usize,
                    max_bandwidth: bandwidth_quota(difficulty) as u64,
                    current_memory: 0,
                    current_bandwidth: 0,
                },
            )
            &&& after.oom_handler.kill_queue@ == with_victim(
                before.oom_handler.kill_queue@,
                circuit_id,
                difficulty,
            )
        } else {
            &&& r matches Err(e) && e@ == RoutingFailure::ResourceAllocationFailed(
                if accepted {
                    "Memory exhausted"@
                } else {
                    "Invalid proof-of-work"@
                },
            )
            &&& after.memory_pool.allocated == before.memory_pool.allocated
            &&& after.circuit_quotas@ == before.circuit_quotas@
            &&& after.oom_handler.kill_queue@ == before.oom_handler.kill_queue@
        }
    }

    /// Allocate circuit resources, under a random circuit number
    pub fn allocate(&mut self, pow: ProofOfWork, now: Instant) -> (r: Result<
        CircuitAllocation,
        RoutingError,
    >)
        requires
            old(self).wf(),
        ensures
            final(self).wf(),
            exists|circuit_id: u32|
                Self::allocates(
                    *old(self),
                    *final(self),
                    pow,
                    pow_digest(pow.circuit_id, pow.nonce),
                    circuit_id,
                    now,
                    r,
                ),
    {
        let computed = pow_hash(pow.circuit_id, pow.nonce);
        let circuit_id: u32 = random::random_u32();
        let r = self.allocate_as(pow, computed.as_slice(), circuit_id, now);
        r
    }

    /// Allocates circuit resources against the hash of the proof's circuit
    /// number and nonce, under a given circuit number.
    ///
    /// The difficulty that decides on the quotas is never more than the
    /// verifier's own, whatever the proof claims.
    pub fn allocate_as(
        &mut self,
        pow: ProofOfWork,
        computed: &[u8],
        circuit_id: u32,
        now: Instant,
    ) -> (r: Result<CircuitAllocation, RoutingError>)
        requires
            old(self).wf(),
            computed@.len() == 32,
        ensures
            final(self).wf(),
            Self::allocates(*old(self), *final(self), pow, computed@, circuit_id, now, r),
            old(self).exact() && !old(self).circuit_quotas@.dom().contains(circuit_id)
                ==> final(self).exact(),
    {
        if !self.pow_verifier.verify_against(&pow, computed, now) {
            return Err(
                RoutingError::ResourceAllocationFailed("Invalid proof-of-work".to_owned()),
            );
        }
        let difficulty: u32 = if pow.difficulty < self.pow_verifier.difficulty {
            pow.difficulty
        } else {
            self.pow_verifier.difficulty
        };
        proof {
            lemma_leading_zeros_bounded(computed@);
        }
        let memory: usize = self.calculate_memory_quota(difficulty);
        let bandwidth: u64 = self.calculate_bandwidth_quota(difficulty);
        if memory > self.memory_pool.total_available - self.memory_pool.allocated {
            return Err(RoutingError::ResourceAllocationFailed("Memory exhausted".to_owned()));
        }
        self.memory_pool.allocated = self.memory_pool.allocated + memory;
        let quota = CircuitQuota {
            max_memory: memory,
            max_bandwidth: bandwidth,
            current_memory: 0,
            current_bandwidth: 0,
        };
        let ghost quotas = self.circuit_quotas@;
        self.circuit_quotas.insert(circuit_id, quota);
        proof {
            lemma_reserved_insert(quotas, circuit_id, quota);
            if quotas.dom().contains(circuit_id) {
                lemma_reserved_remove(quotas, circuit_id);
            } else {
                assert(quotas.remove(circuit_id) =~= quotas);
            }
            lemma_with_victim(self.oom_handler.kill_queue@, circuit_id, difficulty);
        }
        insert_victim(&mut self.oom_handler.kill_queue, circuit_id, difficulty);
        Ok(
            CircuitAllocation {
                circuit_id,
                memory_quota: memory,
                bandwidth_quota: bandwidth,
            },
        )
    }

    /// Release circuit resources
    pub fn release(&mut self, circuit_id: u32) -> (r: Result<(), RoutingError>)
        requires
            old(self).wf(),
        ensures
            final(self).wf(),
            r is Ok,
            final(self).config == old(self).config,
            final(self).pow_verifier == old(self).pow_verifier,
            final(self).rate_limiter == old(self).rate_limiter,
            final(self).oom_handler.threshold == old(self).oom_handler.threshold,
            final(self).memory_pool.total_available == old(self).memory_pool.total_available,
            final(self).memory_pool.circuit_limit == old(self).memory_pool.circuit_limit,
            final(self).memory_pool.allocated == (if old(self).circuit_quotas@.dom().contains(
                circuit_id,
            ) {
                old(self).memory_pool.allocated - old(self).circuit_quotas@[circuit_id].max_memory
            } else {
                old(self).memory_pool.allocated as int
            }),
            final(self).circuit_quotas@ == old(self).circuit_quotas@.remove(circuit_id),
            final(self).oom_handler.kill_queue@ == old(self).oom_handler.kill_queue@.filter(
                other_circuit(circuit_id),
            ),
            old(self).exact() ==> final(self).exact(),
    {
        let ghost before = self.circuit_quotas@;
        match self.circuit_quotas.remove(&circuit_id) {
            Some(quota) => {
                proof {
                    lemma_reserved_remove(before, circuit_id);
                }
                self.memory_pool.allocated =
                self.memory_pool.allocated.saturating_sub(quota.max_memory);
            },
            None => {
                assert(self.circuit_quotas@ =~= before);
                assert(before.remove(circuit_id) =~= before);
            },
        }
        let ghost queue = self.oom_handler.kill_queue@;
        let rest = victims_without(&self.oom_handler.kill_queue, circuit_id);
        self.oom_handler.kill_queue = rest;
        proof {
            lemma_filtered_queue(queue, circuit_id);
        }
        Ok(())
    }

    /// Check memory usage for circuit
    pub fn check_memory(&self, circuit_id: u32, additional: usize) -> (r: bool)
        ensures
            r == (self.circuit_quotas@.dom().contains(circuit_id)
                && self.circuit_quotas@[circuit_id].current_memory + additional
                <= self.circuit_quotas@[circuit_id].max_memory),
    {
        match self.circuit_quotas.get(&circuit_id) {
            Some(quota) => additional <= quota.max_memory && quota.current_memory
                <= quota.max_memory - additional,
            None => false,
        }
    }

    /// Record memory usage
    pub fn record_memory(&mut self, circuit_id: u32, bytes: usize)
        requires
            old(self).wf(),
            old(self).circuit_quotas@.dom().contains(circuit_id) ==> old(
                self,
            ).circuit_quotas@[circuit_id].current_memory + bytes <= usize::MAX,
        ensures
            final(self).wf(),
            final(self).config == old(self).config,
            final(self).memory_pool == old(self).memory_pool,
            final(self).pow_verifier == old(self).pow_verifier,
            final(self).rate_limiter == old(self).rate_limiter,
            final(self).oom_handler == old(self).oom_handler,
            final(self).circuit_quotas@ == (if old(self).circuit_quotas@.dom().contains(
                circuit_id,
            ) {
                let quota = old(self).circuit_quotas@[circuit_id];
                old(self).circuit_quotas@.insert(
                    circuit_id,
                    CircuitQuota { current_memory: (quota.current_memory + bytes) as usize, ..quota
                    },
                )
            } else {
                old(self).circuit_quotas@
            }),
            old(self).exact() ==> final(self).exact(),
    {
        let ghost before = self.circuit_quotas@;
        match self.circuit_quotas.remove(&circuit_id) {
            Some(quota) => {
                let more = CircuitQuota {
                    max_memory: quota.max_memory,
                    max_bandwidth: quota.max_bandwidth,
                    current_memory: quota.current_memory + bytes,
                    current_bandwidth: quota.current_bandwidth,
                };
                self.circuit_quotas.insert(circuit_id, more);
                proof {
                    lemma_reserved_remove(before, circuit_id);
                    lemma_reserved_insert(before, circuit_id, more);
                    assert(self.circuit_quotas@ =~= before.insert(circuit_id, more));
                }
            },
            None => {
                assert(self.circuit_quotas@ =~= before);
            },
        }
    }

    /// Calculate memory quota from the *verified* difficulty.
    pub fn calculate_memory_quota(&self, difficulty: u32) -> (r: usize)
        requires
            memory_quota(difficulty) <= usize::MAX,
        ensures
            r == memory_quota(difficulty),
    {
        let base_quota: usize = 100 * 1024 * 1024;
        let difficulty_bonus: usize = (difficulty as usize) * 10_485_760;
        base_quota + difficulty_bonus
    }

    /// Calculate bandwidth quota from the *verified* difficulty.
    pub fn calculate_bandwidth_quota(&self, difficulty: u32) -> (r: u64)
        ensures
            r == bandwidth_quota(difficulty),
    {
        let base_quota: u64 = 1024 * 1024;
        let difficulty_bonus: u64 = (difficulty as u64) * 524_288;
        base_quota + difficulty_bonus
    }
}

/// Puts a circuit into a kill queue, behind all that are not harder.
fn insert_victim(queue: &mut Vec<(u32, u32)>, circuit_id: u32, difficulty: u32)
    requires
        by_difficulty(old(queue)@),
    ensures
        final(queue)@ == with_victim(old(queue)@, circuit_id, difficulty),
{
    let ghost all = queue@;
    let mut i: usize = queue.len();
    assert(all.take(i as int) =~= all);
    while i > 0 && queue[i - 1].1 > difficulty
        invariant
            queue@ == all,
            i <= all.len(),
            kill_place(all, difficulty) == kill_place(all.take(i as int), difficulty),
        decreases i,
    {
        assert(all.take(i as int).drop_last() =~= all.take(i - 1));
        i = i - 1;
    }
    assert(i > 0 ==> all.take(i as int).last() == all[i - 1]);
    queue.insert(i, (circuit_id, difficulty));
}

/// A kill queue without one circuit.
fn victims_without(queue: &Vec<(u32, u32)>, circuit_id: u32) -> (r: Vec<(u32, u32)>)
    ensures
        r@ == queue@.filter(other_circuit(circuit_id)),
{
    let mut r: Vec<(u32, u32)> = Vec::new();
    let mut i: usize = 0;
    proof {
        reveal(Seq::filter);
    }
    while i < queue.len()
        invariant
            i <= queue@.len(),
            r@ == queue@.take(i as int).filter(other_circuit(circuit_id)),
        decreases queue@.len() - i,
    {
        proof {
            reveal(Seq::filter);
            assert(queue@.take(i + 1).drop_last() =~= queue@.take(i as int));
        }
        if queue[i].0 != circuit_id {
            r.push(queue[i]);
        }
        i = i + 1;
    }
    assert(queue@.take(i as int) =~= queue@);
    r
}

proof fn lemma_filtered_queue(queue: Seq<(u32, u32)>, circuit_id: u32)
    requires
        by_difficulty(queue),
    ensures
        by_difficulty(queue.filter(other_circuit(circuit_id))),
        forall|id: u32| #[trigger]
            queued(queue.filter(other_circuit(circuit_id)), id) <==> queued(queue, id) && id
                != circuit_id,
    decreases queue.len(),
{
    reveal(Seq::filter);
    let p = other_circuit(circuit_id);
    let rest = queue.filter(p);
    if queue.len() > 0 {
        let shorter = queue.drop_last();
        let less = shorter.filter(p);
        assert(by_difficulty(shorter));
        lemma_filtered_queue(shorter, circuit_id);
        let x = queue.last();
        assert forall|i: int| 0 <= i < less.len() implies (#[trigger] less[i]).1 <= x.1 by {
            broadcast use vstd::seq_lib::group_filter_ensures;

            shorter.lemma_filter_contains_rev(p, less[i]);
            let k = choose|k: int| 0 <= k < shorter.len() && shorter[k] == less[i];
            assert(queue[k] == less[i]);
        }
        assert forall|id: u32| #[trigger] queued(rest, id) <==> queued(queue, id) && id
            != circuit_id by {
            if queued(queue, id) && id != circuit_id {
                let k = choose|k: int| 0 <= k < queue.len() && (#[trigger] queue[k]).0 == id;
                if k < shorter.len() {
                    assert(shorter[k].0 == id);
                    assert(queued(shorter, id));
                    assert(queued(less, id));
                    let j = choose|j: int| 0 <= j < less.len() && (#[trigger] less[j]).0 == id;
                    assert(rest[j] == less[j]);
                } else {
                    assert(rest.last() == x);
                    assert(rest[rest.len() - 1].0 == id);
                }
            }
            if queued(rest, id) {
                let j = choose|j: int| 0 <= j < rest.len() && (#[trigger] rest[j]).0 == id;
                if j < less.len() {
                    assert(less[j].0 == id);
                    assert(queued(less, id));
                    let k = choose|k: int| 0 <= k < shorter.len() && (#[trigger] shorter[k]).0
                        == id;
                    assert(queue[k].0 == id);
                } else {
                    assert(queue[queue.len() - 1].0 == id);
                }
            }
        }
    }
}

/// A circuit that is allocated and then released leaves the pool and the
/// quotas as they were.
pub proof fn law_release_undoes_allocate(
    before: ResourceGuard,
    between: ResourceGuard,
    pow: ProofOfWork,
    computed: Seq<u8>,
    circuit_id: u32,
    now: Instant,
    r: Result<CircuitAllocation, RoutingError>,
)
    requires
        before.wf(),
        ResourceGuard::allocates(before, between, pow, computed, circuit_id, now, r),
        r is Ok,
        computed.len() == 32,
        !before.circuit_quotas@.dom().contains(circuit_id),
    ensures
        between.circuit_quotas@.dom().contains(circuit_id),
        between.memory_pool.allocated - between.circuit_quotas@[circuit_id].max_memory
            == before.memory_pool.allocated,
        between.circuit_quotas@.remove(circuit_id) == before.circuit_quotas@,
        between.oom_handler.kill_queue@.filter(other_circuit(circuit_id))
            == before.oom_handler.kill_queue@,
{
    lemma_leading_zeros_bounded(computed);
    assert(between.circuit_quotas@.remove(circuit_id) =~= before.circuit_quotas@);
    let queue = before.oom_handler.kill_queue@;
    let own = before.pow_verifier.difficulty;
    let difficulty = if pow.difficulty < own {
        pow.difficulty
    } else {
        own
    };
    assert(!queued(queue, circuit_id));
    lemma_kill_place(queue, difficulty);
    let p = kill_place(queue, difficulty) as int;
    let more = between.oom_handler.kill_queue@;
    let keep = other_circuit(circuit_id);
    assert(more =~= queue.take(p).push((circuit_id, difficulty)) + queue.skip(p));
    lemma_all_kept(queue.take(p), circuit_id);
    lemma_all_kept(queue.skip(p), circuit_id);
    Seq::filter_distributes_over_add(
        queue.take(p).push((circuit_id, difficulty)),
        queue.skip(p),
        keep,
    );
    assert(queue.take(p).push((circuit_id, difficulty)).filter(keep) == queue.take(p)) by {
        reveal(Seq::filter);
        assert(queue.take(p).push((circuit_id, difficulty)).drop_last() =~= queue.take(p));
    }
    assert(queue.take(p) + queue.skip(p) =~= queue);
}

proof fn lemma_all_kept(queue: Seq<(u32, u32)>, circuit_id: u32)
    requires
        !queued(queue, circuit_id),
    ensures
        queue.filter(other_circuit(circuit_id)) == queue,
    decreases queue.len(),
{
    reveal(Seq::filter);
    if queue.len() > 0 {
        let shorter = queue.drop_last();
        assert(!queued(shorter, circuit_id)) by {
            if queued(shorter, circuit_id) {
                let k = choose|k: int| 0 <= k < shorter.len() && (#[trigger] shorter[k]).0
                    == circuit_id;
                assert(queue[k].0 == circuit_id);
            }
        }
        lemma_all_kept(shorter, circuit_id);
        assert(queue[queue.len() - 1].0 != circuit_id);
        assert(shorter.push(queue.last()) =~= queue);
    }
}

/// No proof of work earns more than the verifier's own difficulty is worth.
pub proof fn law_quota_is_bounded(
    before: ResourceGuard,
    after: ResourceGuard,
    pow: ProofOfWork,
    computed: Seq<u8>,
    circuit_id: u32,
    now: Instant,
    r: Result<CircuitAllocation, RoutingError>,
)
    requires
        ResourceGuard::allocates(before, after, pow, computed, circuit_id, now, r),
    ensures
        r matches Ok(a) ==> a.memory_quota <= memory_quota(before.pow_verifier.difficulty)
            && a.bandwidth_quota <= bandwidth_quota(before.pow_verifier.difficulty),
{
}

/// A circuit gets 100 MiB and a megabyte per second, and each bit of difficulty
/// earns 10 MiB and half a megabyte per second more.
pub proof fn law_what_difficulty_earns(difficulty: u32)
    ensures
        memory_quota(0) == 100 * 1024 * 1024,
        bandwidth_quota(0) == 1024 * 1024,
        difficulty < u32::MAX ==> memory_quota((difficulty + 1) as u32) - memory_quota(difficulty)
            == 10 * 1024 * 1024,
        difficulty < u32::MAX ==> bandwidth_quota((difficulty + 1) as u32) - bandwidth_quota(
            difficulty,
        ) == 512 * 1024,
{
}

/// A circuit that is allocated has its quota taken out of the pool, all of it at
/// once, and an allocation succeeds exactly if the proof is accepted and the quota
/// of the lesser of the two difficulties still fits.
#[verifier::rlimit(40)]
pub proof fn law_what_an_allocation_takes(
    before: ResourceGuard,
    after: ResourceGuard,
    pow: ProofOfWork,
    computed: Seq<u8>,
    circuit_id: u32,
    now: Instant,
    r: Result<CircuitAllocation, RoutingError>,
)
    requires
        before.wf(),
        computed.len() == 32,
        ResourceGuard::allocates(before, after, pow, computed, circuit_id, now, r),
    ensures
        r matches Ok(a) ==> {
            &&& a.circuit_id == circuit_id
            &&& after.memory_pool.allocated == before.memory_pool.allocated + a.memory_quota
            &&& after.memory_pool.allocated <= before.memory_pool.total_available
            &&& after.circuit_quotas@.dom().contains(circuit_id)
            &&& after.circuit_quotas@[circuit_id].max_memory == a.memory_quota
            &&& after.circuit_quotas@[circuit_id].max_bandwidth == a.bandwidth_quota
            &&& after.circuit_quotas@[circuit_id].current_memory == 0
            &&& after.circuit_quotas@[circuit_id].current_bandwidth == 0
            &&& a.memory_quota == 1_048_576 * (100 + 10 * if pow.difficulty
                < before.pow_verifier.difficulty {
                pow.difficulty
            } else {
                before.pow_verifier.difficulty
            })
        },
        r is Ok <==> before.pow_verifier.accepts(pow, computed, now) && before.memory_pool.allocated
            + 1_048_576 * (100 + 10 * if pow.difficulty < before.pow_verifier.difficulty {
            pow.difficulty
        } else {
            before.pow_verifier.difficulty
        }) <= before.memory_pool.total_available,
        r is Err ==> after.memory_pool.allocated == before.memory_pool.allocated
            && after.circuit_quotas@ == before.circuit_quotas@ && after.oom_handler.kill_queue@
            == before.oom_handler.kill_queue@,
{
    lemma_leading_zeros_bounded(computed);
}

/// A new circuit goes into the kill queue behind all that are as hard as it or
/// easier, and before all that are harder; the others keep their order.
pub proof fn law_the_easiest_die_first(queue: Seq<(u32, u32)>, circuit_id: u32, difficulty: u32)
    requires
        by_difficulty(queue),
    ensures
        by_difficulty(with_victim(queue, circuit_id, difficulty)),
        with_victim(queue, circuit_id, difficulty).len() == queue.len() + 1,
        exists|p: int|
            #![trigger queue.insert(p, (circuit_id, difficulty))]
            0 <= p <= queue.len() && with_victim(queue, circuit_id, difficulty) == queue.insert(
                p,
                (circuit_id, difficulty),
            ) && (forall|i: int| 0 <= i < p ==> (#[trigger] queue[i]).1 <= difficulty) && (
            forall|i: int| p <= i < queue.len() ==> (#[trigger] queue[i]).1 > difficulty),
{
    lemma_kill_place(queue, difficulty);
    lemma_with_victim(queue, circuit_id, difficulty);
    let p = kill_place(queue, difficulty) as int;
    assert(with_victim(queue, circuit_id, difficulty) == queue.insert(p, (circuit_id, difficulty)));
}

/// A guard with the usual threshold is under pressure exactly if more than nine
/// tenths of its memory are allocated.
pub proof fn law_pressure_above_nine_tenths(guard: ResourceGuard)
    requires
        guard.oom_handler.threshold == (Ratio { num: 9, den: 10 }),
    ensures
        guard.under_pressure() <==> 10 * guard.memory_pool.allocated > 9
            * guard.memory_pool.total_available,
{
}

/// Circuit window-based throttling
/// Prevents Sniper attacks by enforcing flow control
#[derive(Debug, Clone, Copy, PartialEq, Eq, Structural)]
pub struct CircuitWindow {
    /// Window size (cells)
    pub window_size: usize,
    /// Current window
    pub current_window: usize,
    /// Delivered cells
    pub delivered: usize,
}

impl CircuitWindow {
    /// Whether the window is no larger than its size.
    pub open spec fn wf(self) -> bool {
        self.current_window <= self.window_size
    }

    /// The window after a delivery, where there is room for one.
    pub open spec fn after_delivery(self) -> CircuitWindow {
        if self.current_window > 0 {
            CircuitWindow {
                current_window: (self.current_window - 1) as usize,
                delivered: (self.delivered + 1) as usize,
                ..self
            }
        } else {
            self
        }
    }

    /// The window after an update by `increment` cells.
    pub open spec fn after_sendme(self, increment: usize) -> CircuitWindow {
        CircuitWindow {
            current_window: if self.current_window + increment < self.window_size {
                (self.current_window + increment) as usize
            } else {
                self.window_size
            },
            ..self
        }
    }

    /// Create new circuit window
    pub fn new(window_size: usize) -> (r: CircuitWindow)
        ensures
            r.wf(),
            r == (CircuitWindow { window_size, current_window: window_size, delivered: 0 }),
    {
        CircuitWindow { window_size, current_window: window_size, delivered: 0 }
    }

    /// Check if can send cell
    pub fn can_send(&self) -> (r: bool)
        ensures
            r == (self.current_window > 0),
    {
        self.current_window > 0
    }

    /// Record cell delivery
    pub fn deliver(&mut self) -> (r: bool)
        requires
            old(self).current_window > 0 ==> old(self).delivered < usize::MAX,
        ensures
            r == (old(self).current_window > 0),
            *final(self) == old(self).after_delivery(),
            old(self).wf() ==> final(self).wf(),
    {
        if self.current_window > 0 {
            self.current_window = self.current_window - 1;
            self.delivered = self.delivered + 1;
            true
        } else {
            false
        }
    }

    /// Process SENDME (window update)
    pub fn process_sendme(&mut self, increment: usize)
        ensures
            *final(self) == old(self).after_sendme(increment),
            final(self).wf(),
    {
        self.current_window =
        match self.current_window.checked_add(increment) {
            Some(n) => if n < self.window_size {
                n
            } else {
                self.window_size
            },
            None => self.window_size,
        };
    }

    /// Get window usage ratio
    pub fn usage_ratio(&self) -> (r: Ratio)
        requires
            self.wf(),
        ensures
            r.num == self.window_size - self.current_window,
            r.den == self.window_size,
    {
        Ratio::new((self.window_size - self.current_window) as u64, self.window_size as u64)
    }
}

/// A window update for one cell makes up for one delivery.
pub proof fn law_sendme_undoes_delivery(w: CircuitWindow)
    requires
        w.wf(),
        w.current_window > 0,
    ensures
        w.after_delivery().after_sendme(1).current_window == w.current_window,
{
}

/// Without an update, no more cells are delivered than the window has room for.
pub proof fn law_window_runs_out(w: CircuitWindow, n: nat)
    requires
        w.delivered + w.current_window <= usize::MAX,
    ensures
        delivered_after(w, n).delivered + delivered_after(w, n).current_window == w.delivered
            + w.current_window,
        n >= w.current_window ==> delivered_after(w, n).current_window == 0,
    decreases n,
{
    if n > 0 {
        law_window_runs_out(w.after_delivery(), (n - 1) as nat);
    }
}

/// A window after `n` deliveries in a row.
pub open spec fn delivered_after(w: CircuitWindow, n: nat) -> CircuitWindow
    decreases n,
{
    if n == 0 {
        w
    } else {
        delivered_after(w.after_delivery(), (n - 1) as nat)
    }
}

/// Sniper attack detector
pub struct SniperDetector {
    /// Share of acknowledged cells below which a circuit is suspicious
    pub threshold: Ratio,
    /// Circuit statistics
    pub circuit_stats: HashMap<u32, SniperStats>,
}

/// What is known of the cells of a circuit.
#[derive(Debug, Clone, Copy, PartialEq, Eq, Structural)]
pub struct SniperStats {
    /// Cells received.
    pub cells_received: usize,
    /// Cells acknowledged.
    pub cells_acked: usize,
    /// When a cell was acknowledged last.
    pub last_ack: Instant,
    /// For how long the circuit has stalled.
    pub stall_duration: Duration,
}

/// What is known of a circuit at first.
pub open spec fn fresh_stats(now: Instant) -> SniperStats {
    SniperStats {
        cells_received: 0,
        cells_acked: 0,
        last_ack: now,
        stall_duration: Duration { nanos: 0 },
    }
}

impl SniperDetector {
    /// What is known of a circuit, at first nothing.
    pub open spec fn stats_of(self, circuit_id: u32, now: Instant) -> SniperStats {
        if self.circuit_stats@.dom().contains(circuit_id) {
            self.circuit_stats@[circuit_id]
        } else {
            fresh_stats(now)
        }
    }

    /// Whether a circuit received more than a thousand cells and a smaller share
    /// of them than the threshold was acknowledged.
    pub open spec fn sniped(self, circuit_id: u32) -> bool {
        &&& self.circuit_stats@.dom().contains(circuit_id)
        &&& self.circuit_stats@[circuit_id].cells_received > 1000
        &&& self.circuit_stats@[circuit_id].cells_acked * self.threshold.den < self.threshold.num
            * self.circuit_stats@[circuit_id].cells_received
    }

    /// Create new sniper detector
    pub fn new(threshold: Ratio) -> (r: SniperDetector)
        ensures
            r.threshold == threshold,
            r.circuit_stats@ == Map::<u32, SniperStats>::empty(),
    {
        SniperDetector { threshold, circuit_stats: HashMap::new() }
    }

    fn take_stats(&mut self, circuit_id: u32, now: Instant) -> (r: SniperStats)
        ensures
            r == old(self).stats_of(circuit_id, now),
            final(self).threshold == old(self).threshold,
            final(self).circuit_stats@ == old(self).circuit_stats@.remove(circuit_id),
    {
        match self.circuit_stats.remove(&circuit_id) {
            Some(stat) => stat,
            None => {
                assert(self.circuit_stats@ =~= old(self).circuit_stats@.remove(circuit_id));
                SniperStats {
                    cells_received: 0,
                    cells_acked: 0,
                    last_ack: now,
                    stall_duration: Duration { nanos: 0 },
                }
            },
        }
    }

    /// Record cell received
    pub fn record_received(&mut self, circuit_id: u32, now: Instant)
        requires
            old(self).stats_of(circuit_id, now).cells_received < usize::MAX,
        ensures
            final(self).threshold == old(self).threshold,
            final(self).circuit_stats@ == old(self).circuit_stats@.insert(
                circuit_id,
                SniperStats {
                    cells_received: (old(self).stats_of(circuit_id, now).cells_received
                        + 1) as usize,
                    ..old(self).stats_of(circuit_id, now)
                },
            ),
    {
        let mut stat = self.take_stats(circuit_id, now);
        stat.cells_received = stat.cells_received + 1;
        self.circuit_stats.insert(circuit_id, stat);
        assert(self.circuit_stats@ =~= old(self).circuit_stats@.insert(circuit_id, stat));
    }

    /// Record SENDME sent
    pub fn record_ack(&mut self, circuit_id: u32, now: Instant)
        requires
            old(self).stats_of(circuit_id, now).cells_acked < usize::MAX,
        ensures
            final(self).threshold == old(self).threshold,
            final(self).circuit_stats@ == old(self).circuit_stats@.insert(
                circuit_id,
                SniperStats {
                    cells_acked: (old(self).stats_of(circuit_id, now).cells_acked + 1) as usize,
                    last_ack: now,
                    ..old(self).stats_of(circuit_id, now)
                },
            ),
    {
        let mut stat = self.take_stats(circuit_id, now);
        stat.cells_acked = stat.cells_acked + 1;
        stat.last_ack = now;
        self.circuit_stats.insert(circuit_id, stat);
        assert(self.circuit_stats@ =~= old(self).circuit_stats@.insert(circuit_id, stat));
    }

    /// Check for sniper attack pattern
    pub fn detect_sniper(&self, circuit_id: u32) -> (r: bool)
        ensures
            r == self.sniped(circuit_id),
    {
        match self.circuit_stats.get(&circuit_id) {
            Some(stat) => stat.cells_received > 1000 && self.threshold.exceeds(
                &Ratio::new(stat.cells_acked as u64, stat.cells_received as u64),
            ),
            None => false,
        }
    }

    /// Get circuits to kill (sniper victims), each once, in no particular order
    pub fn get_victims(&self) -> (r: Vec<u32>)
        ensures
            r@.no_duplicates(),
            forall|id: u32| #[trigger] r@.contains(id) <==> self.sniped(id),
    {
        let ks = maps::keys_u32(&self.circuit_stats);
        let mut victims: Vec<u32> = Vec::new();
        let mut i: usize = 0;
        proof {
            maps::lemma_seen_ends(ks@);
        }
        while i < ks.len()
            invariant
                i <= ks@.len(),
                ks@.no_duplicates(),
                ks@.to_set() == self.circuit_stats@.dom(),
                victims@.no_duplicates(),
                forall|id: u32| #[trigger]
                    victims@.contains(id) <==> seen(ks@, i as int).contains(id) && self.sniped(id),
            decreases ks@.len() - i,
        {
            let id: u32 = ks[i];
            let ghost before = victims@;
            proof {
                maps::lemma_seen_next(ks@, i as int);
            }
            if self.detect_sniper(id) {
                victims.push(id);
                proof {
                    assert(!before.contains(id));
                    assert forall|x: u32| #[trigger] victims@.contains(x) <==> before.contains(x)
                        || x == id by {
                        if before.contains(x) {
                            let k = choose|k: int| 0 <= k < before.len() && before[k] == x;
                            assert(victims@[k] == x);
                        }
                        assert(victims@[before.len() as int] == id);
                    }
                }
            }
            i = i + 1;
        }
        proof {
            maps::lemma_seen_ends(ks@);
        }
        victims
    }
}

/// A circuit of which every cell was acknowledged, or which received no more than
/// a thousand, is not sniped, as long as the threshold is a share; and one of which
/// none was is, once it received more than a thousand, unless the threshold is
/// nothing.
pub proof fn law_acknowledged_circuits_are_safe(detector: SniperDetector, circuit_id: u32)
    requires
        detector.circuit_stats@.dom().contains(circuit_id),
        detector.threshold.num <= detector.threshold.den,
        detector.threshold.den > 0,
    ensures
        ({
            let stat = detector.circuit_stats@[circuit_id];
            &&& stat.cells_acked >= stat.cells_received ==> !detector.sniped(circuit_id)
            &&& stat.cells_received <= 1000 ==> !detector.sniped(circuit_id)
            &&& stat.cells_received >= 1001 && stat.cells_acked == 0 && detector.threshold.num > 0
                ==> detector.sniped(circuit_id)
        }),
{
    let stat = detector.circuit_stats@[circuit_id];
    let (a, r) = (stat.cells_acked as int, stat.cells_received as int);
    let (n, d) = (detector.threshold.num as int, detector.threshold.den as int);
    if a >= r {
        assert(n * r <= a * d) by (nonlinear_arith)
            requires
                0 <= n <= d,
                0 <= r <= a,
        ;
    }
    if r >= 1001 && n > 0 {
        assert(n * r > 0) by (nonlinear_arith)
            requires
                n > 0,
                r > 0,
        ;
        assert(0 * d == 0);
    }
}

/// Fewer acknowledgements, or more cells, never make a sniped circuit safe.
pub proof fn law_fewer_acknowledgements_are_worse(
    detector: SniperDetector,
    worse: SniperDetector,
    circuit_id: u32,
)
    requires
        detector.sniped(circuit_id),
        worse.threshold == detector.threshold,
        worse.circuit_stats@.dom().contains(circuit_id),
        worse.circuit_stats@[circuit_id].cells_received
            >= detector.circuit_stats@[circuit_id].cells_received,
        worse.circuit_stats@[circuit_id].cells_acked
            <= detector.circuit_stats@[circuit_id].cells_acked,
    ensures
        worse.sniped(circuit_id),
{
    let (a, r) = (
        detector.circuit_stats@[circuit_id].cells_acked as int,
        detector.circuit_stats@[circuit_id].cells_received as int,
    );
    let (b, s) = (
        worse.circuit_stats@[circuit_id].cells_acked as int,
        worse.circuit_stats@[circuit_id].cells_received as int,
    );
    let (n, d) = (detector.threshold.num as int, detector.threshold.den as int);
    assert(b * d <= a * d && n * r <= n * s) by (nonlinear_arith)
        requires
            b <= a,
            r <= s,
            n >= 0,
            d >= 0,
    ;
}

/// Proof-of-work generator for clients
#[derive(Debug, Clone, Copy, PartialEq, Eq, Structural)]
pub struct PowGenerator {
    /// Leading zero bits that a proof has.
    pub difficulty: u32,
}

/// Whether a nonce solves the puzzle of a circuit: the whole zero bytes at the
/// front of the hash make up the difficulty.
pub open spec fn solves(circuit_id: u32, nonce: u64, difficulty: u32) -> bool {
    8 * zero_bytes(pow_digest(circuit_id, nonce)) >= difficulty
}

/// The nonce `steps` after `start`, where the nonce behind the last is zero.
pub open spec fn nonce_after(start: u64, steps: int) -> u64 {
    ((start + steps) % 0x1_0000_0000_0000_0000) as u64
}

impl PowGenerator {
    /// Create new generator
    pub fn new(difficulty: u32) -> (r: PowGenerator)
        ensures
            r.difficulty == difficulty,
    {
        PowGenerator { difficulty }
    }

    /// Generate proof-of-work, from a random nonce on. There is none exactly
    /// when no nonce solves the puzzle.
    pub fn generate(&self, circuit_id: u32) -> (r: Option<ProofOfWork>)
        ensures
            match r {
                Some(pow) => {
                    &&& pow.difficulty == self.difficulty
                    &&& pow.circuit_id == circuit_id
                    &&& pow.hash@ == pow_digest(circuit_id, pow.nonce)
                    &&& solves(circuit_id, pow.nonce, self.difficulty)
                },
                None => forall|nonce: u64| !#[trigger] solves(circuit_id, nonce, self.difficulty),
            },
    {
        self.generate_from(circuit_id, random::random_u64())
    }

    /// Generates a proof of work with the first nonce that solves the puzzle,
    /// from `start` on. There is none exactly when no nonce solves it.
    pub fn generate_from(&self, circuit_id: u32, start: u64) -> (r: Option<ProofOfWork>)
        ensures
            match r {
                Some(pow) => {
                    &&& pow.difficulty == self.difficulty
                    &&& pow.circuit_id == circuit_id
                    &&& pow.hash@ == pow_digest(circuit_id, pow.nonce)
                    &&& solves(circuit_id, pow.nonce, self.difficulty)
                    &&& exists|steps: int|
                        0 <= steps <= u64::MAX && pow.nonce == nonce_after(start, steps) && forall|
                            k: int,
                        |
                            0 <= k < steps ==> !solves(
                                circuit_id,
                                #[trigger] nonce_after(start, k),
                                self.difficulty,
                            )
                },
                None => forall|nonce: u64| !#[trigger] solves(circuit_id, nonce, self.difficulty),
            },
    {
        let mut nonce: u64 = start;
        let mut steps: u64 = 0;
        loop
            invariant
                nonce == nonce_after(start, steps as int),
                forall|k: int|
                    0 <= k < steps ==> !solves(
                        circuit_id,
                        #[trigger] nonce_after(start, k),
                        self.difficulty,
                    ),
            decreases u64::MAX - steps,
        {
            let hash = pow_hash(circuit_id, nonce);
            if meets_in_whole_bytes(hash.as_slice(), self.difficulty) {
                return Some(
                    ProofOfWork { difficulty: self.difficulty, circuit_id, nonce, hash },
                );
            }
            if steps == u64::MAX {
                proof {
                    assert forall|n: u64| !#[trigger] solves(circuit_id, n, self.difficulty) by {
                        let k = if n >= start {
                            n - start
                        } else {
                            n - start + 0x1_0000_0000_0000_0000
                        };
                        assert(nonce_after(start, k) == n);
                    }
                }
                return None;
            }
            nonce = nonce.wrapping_add(1);
            steps = steps + 1;
        }
    }
}

/// The nonces follow one another, and behind the last comes zero again.
pub proof fn law_nonces_in_turn(start: u64, steps: int)
    requires
        0 <= steps,
    ensures
        nonce_after(start, 0) == start,
        nonce_after(start, steps) < u64::MAX ==> nonce_after(start, steps + 1) == nonce_after(
            start,
            steps,
        ) + 1,
        nonce_after(start, steps) == u64::MAX ==> nonce_after(start, steps + 1) == 0,
{
}

} // verus!
