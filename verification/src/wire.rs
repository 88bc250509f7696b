//! Integers in network byte order, and text found on the wire.

use vstd::prelude::*;

verus! {

/// The number that `bytes` spell, most significant byte first.
pub open spec fn big_endian(bytes: Seq<u8>) -> nat
    decreases bytes.len(),
{
    if bytes.len() == 0 {
        0
    } else {
        big_endian(bytes.drop_last()) * 256 + bytes.last() as nat
    }
}

/// `n` in two bytes.
pub open spec fn two_bytes(n: int) -> Seq<u8> {
    seq![(n / 256) as u8, (n % 256) as u8]
}

/// `n` in four bytes.
pub open spec fn four_bytes(n: int) -> Seq<u8> {
    seq![
        (n / 0x100_0000) as u8,
        (n / 0x1_0000 % 256) as u8,
        (n / 0x100 % 256) as u8,
        (n % 256) as u8,
    ]
}

/// Two bytes spell the sum of their weighted values.
pub proof fn lemma_two(b: Seq<u8>)
    requires
        b.len() == 2,
    ensures
        big_endian(b) == b[0] * 256 + b[1],
{
    reveal_with_fuel(big_endian, 3);
    assert(b.drop_last().drop_last() =~= Seq::<u8>::empty());
    assert(b.drop_last().last() == b[0]);
}

/// Four bytes spell the sum of their weighted values.
pub proof fn lemma_four(b: Seq<u8>)
    requires
        b.len() == 4,
    ensures
        big_endian(b) == b[0] * 0x100_0000 + b[1] * 0x1_0000 + b[2] * 0x100 + b[3],
{
    let head = b.drop_last().drop_last();
    assert(head =~= seq![b[0], b[1]]);
    lemma_two(head);
    reveal_with_fuel(big_endian, 3);
    assert(b.drop_last().last() == b[2]);
}

/// Two bytes written are read back.
pub proof fn law_two_bytes_round_trip(n: int)
    requires
        0 <= n < 0x1_0000,
    ensures
        big_endian(two_bytes(n)) == n,
{
    lemma_two(two_bytes(n));
}

/// Four bytes written are read back.
pub proof fn law_four_bytes_round_trip(n: int)
    requires
        0 <= n < 0x1_0000_0000,
    ensures
        big_endian(four_bytes(n)) == n,
{
    lemma_four(four_bytes(n));
}

/// The 16-bit number at `at`.
pub fn read_u16(bytes: &[u8], at: usize) -> (r: u16)
    requires
        at + 2 <= bytes@.len(),
    ensures
        r == big_endian(bytes@.subrange(at as int, at + 2)),
{
    proof {
        lemma_two(bytes@.subrange(at as int, at + 2));
    }
    bytes[at] as u16 * 256 + bytes[at + 1] as u16
}

/// The 32-bit number at `at`.
pub fn read_u32(bytes: &[u8], at: usize) -> (r: u32)
    requires
        at + 4 <= bytes@.len(),
    ensures
        r == big_endian(bytes@.subrange(at as int, at + 4)),
{
    proof {
        lemma_four(bytes@.subrange(at as int, at + 4));
    }
    bytes[at] as u32 * 0x100_0000 + bytes[at + 1] as u32 * 0x1_0000 + bytes[at + 2] as u32 * 0x100
        + bytes[at + 3] as u32
}

/// 256 to the power `n`.
pub open spec fn pow256(n: nat) -> nat
    decreases n,
{
    if n == 0 {
        1
    } else {
        256 * pow256((n - 1) as nat)
    }
}

/// `n` bytes spell a number below 256 to the power `n`.
pub proof fn lemma_bound(b: Seq<u8>)
    ensures
        big_endian(b) < pow256(b.len()),
    decreases b.len(),
{
    if b.len() > 0 {
        lemma_bound(b.drop_last());
    }
}

/// `n` in `k` bytes.
pub open spec fn spelled(n: nat, k: nat) -> Seq<u8>
    decreases k,
{
    if k == 0 {
        Seq::empty()
    } else {
        spelled(n / 256, (k - 1) as nat).push((n % 256) as u8)
    }
}

/// A number spelled in `k` bytes takes `k` bytes.
pub proof fn lemma_spelled_length(n: nat, k: nat)
    ensures
        spelled(n, k).len() == k,
    decreases k,
{
    if k > 0 {
        lemma_spelled_length(n / 256, (k - 1) as nat);
    }
}

/// A number spelled in enough bytes is read back.
pub proof fn law_spelled_round_trip(n: nat, k: nat)
    requires
        n < pow256(k),
    ensures
        big_endian(spelled(n, k)) == n,
    decreases k,
{
    if k > 0 {
        law_spelled_round_trip(n / 256, (k - 1) as nat);
        assert(spelled(n, k).drop_last() =~= spelled(n / 256, (k - 1) as nat));
    }
}

/// The 128-bit number at `at`.
pub fn read_u128(bytes: &[u8], at: usize) -> (r: u128)
    requires
        at + 16 <= bytes@.len(),
    ensures
        r == big_endian(bytes@.subrange(at as int, at + 16)),
{
    let mut r: u128 = 0;
    let mut i: usize = 0;
    assert(bytes.len() <= usize::MAX);
    while i < 16
        invariant
            at + 16 <= bytes@.len(),
            bytes@.len() <= usize::MAX,
            i <= 16,
            r == big_endian(bytes@.subrange(at as int, at + i)),
        decreases 16 - i,
    {
        proof {
            let here = bytes@.subrange(at as int, at + i);
            lemma_bound(here);
            assert(big_endian(here) < pow256(15)) by {
                reveal_with_fuel(pow256, 17);
            }
            assert(pow256(15) == 0x100_0000_0000_0000_0000_0000_0000_0000) by {
                reveal_with_fuel(pow256, 17);
            }
            let next = bytes@.subrange(at as int, at + i + 1);
            assert(next.drop_last() =~= here);
        }
        r = r * 256 + bytes[at + i] as u128;
        i = i + 1;
    }
    r
}

/// Appends `n` in two bytes.
pub fn push_u16(out: &mut Vec<u8>, n: u16)
    ensures
        final(out)@ == old(out)@ + two_bytes(n as int),
{
    out.push((n / 256) as u8);
    out.push((n % 256) as u8);
    assert(out@ =~= old(out)@ + two_bytes(n as int));
}

/// Appends `n` in four bytes.
pub fn push_u32(out: &mut Vec<u8>, n: u32)
    ensures
        final(out)@ == old(out)@ + four_bytes(n as int),
{
    out.push((n / 0x100_0000) as u8);
    out.push((n / 0x1_0000 % 256) as u8);
    out.push((n / 0x100 % 256) as u8);
    out.push((n % 256) as u8);
    assert(out@ =~= old(out)@ + four_bytes(n as int));
}

/// Four bytes more spell the low 32 bits.
pub proof fn lemma_spelled_four(n: nat, k: nat)
    ensures
        spelled(n, k + 4) == spelled(n / 0x1_0000_0000, k) + four_bytes(
            (n % 0x1_0000_0000) as int,
        ),
{
    reveal_with_fuel(spelled, 5);
    let low = (n % 0x1_0000_0000) as int;
    assert(n / 256 / 256 / 256 / 256 == n / 0x1_0000_0000);
    assert(low % 256 == n % 256);
    assert(low / 0x100 % 256 == n / 256 % 256);
    assert(low / 0x1_0000 % 256 == n / 256 / 256 % 256);
    assert(low / 0x100_0000 == n / 256 / 256 / 256 % 256);
    lemma_spelled_length(n / 0x1_0000_0000, k);
    assert(spelled(n, k + 4) =~= spelled(n / 0x1_0000_0000, k) + four_bytes(low));
}

/// A number in four bytes, spelled either way.
pub proof fn lemma_four_is_spelled(n: u32)
    ensures
        spelled(n as nat, 4) == four_bytes(n as int),
{
    lemma_spelled_four(n as nat, 0);
    assert(spelled(n as nat / 0x1_0000_0000, 0) + four_bytes(n as int) =~= four_bytes(n as int));
}

/// Appends `n` in sixteen bytes.
pub fn push_u128(out: &mut Vec<u8>, n: u128)
    ensures
        final(out)@ == old(out)@ + spelled(n as nat, 16),
{
    let a: u128 = n / 0x1_0000_0000;
    let b: u128 = a / 0x1_0000_0000;
    let c: u128 = b / 0x1_0000_0000;
    proof {
        lemma_spelled_four(n as nat, 12);
        lemma_spelled_four(a as nat, 8);
        lemma_spelled_four(b as nat, 4);
        lemma_four_is_spelled(c as u32);
    }
    push_u32(out, c as u32);
    push_u32(out, (b % 0x1_0000_0000) as u32);
    push_u32(out, (a % 0x1_0000_0000) as u32);
    push_u32(out, (n % 0x1_0000_0000) as u32);
    assert(out@ =~= old(out)@ + spelled(n as nat, 16));
}

/// The text that std reads out of arbitrary bytes, with each ill-formed part
/// replaced.
pub uninterp spec fn utf8_lossy(bytes: Seq<u8>) -> Seq<char>;

/// Calls `String::from_utf8_lossy`. Its result is a function of the bytes,
/// named [`utf8_lossy`]; well-formed UTF-8 is decoded without any change. What
/// ill-formed bytes are replaced by is left unsaid.
#[verifier::external_body]
pub(crate) fn lossy_text(bytes: &[u8]) -> (r: String)
    ensures
        r@ == utf8_lossy(bytes@),
        vstd::utf8::valid_utf8(bytes@) ==> r@ == vstd::utf8::decode_utf8(bytes@),
{
    String::from_utf8_lossy(bytes).into_owned()
}

/// In network byte order the first byte weighs most: what comes before weighs as much
/// more as what comes behind is long.
pub proof fn law_network_byte_order(head: Seq<u8>, tail: Seq<u8>, byte: u8)
    ensures
        big_endian(seq![byte]) == byte,
        big_endian(head + tail) == big_endian(head) * pow256(tail.len()) + big_endian(tail),
    decreases tail.len(),
{
    assert(seq![byte].drop_last() =~= Seq::<u8>::empty());
    reveal_with_fuel(big_endian, 2);
    if tail.len() == 0 {
        assert(head + tail =~= head);
        let (h, p) = (big_endian(head) as int, pow256(0) as int);
        assert(h * p == h) by (nonlinear_arith)
            requires
                p == 1,
        ;
    } else {
        let less = tail.drop_last();
        law_network_byte_order(head, less, byte);
        assert((head + tail).drop_last() =~= head + less);
        assert((head + tail).last() == tail.last());
        let (h, p, r) = (big_endian(head) as int, pow256(less.len()) as int, big_endian(less) as int);
        assert((h * p + r) * 256 == h * (256 * p) + r * 256) by (nonlinear_arith);
    }
}

/// 256 to the power `n` is 256 times as much for each step.
pub proof fn law_powers_of_256(n: nat)
    ensures
        pow256(0) == 1,
        pow256(n + 1) == 256 * pow256(n),
{
}

} // verus!
