//! Non-negative real readings (averages, scores) taken from floating point.
//!
//! The library orders such readings and compares them with fixed marks; it
//! never computes with them. A reading is therefore held by its IEEE 754
//! binary64 bit pattern, which for non-negative numbers is ordered exactly as
//! the numbers themselves.

use vstd::arithmetic::power2::{lemma_pow2_pos, lemma_pow2_strictly_increases, lemma_pow2_unfold, pow2};
use vstd::prelude::*;

verus! {

/// 0.3 as a binary64 bit pattern.
pub const THREE_TENTHS: u64 = 0x3FD3_3333_3333_3333;

/// 0.5 as a binary64 bit pattern.
pub const ONE_HALF: u64 = 0x3FE0_0000_0000_0000;

/// 1.0 as a binary64 bit pattern.
pub const ONE: u64 = 0x3FF0_0000_0000_0000;

/// 1000.0 as a binary64 bit pattern.
pub const ONE_THOUSAND: u64 = 0x408F_4000_0000_0000;

/// 2000.0 as a binary64 bit pattern.
pub const TWO_THOUSAND: u64 = 0x409F_4000_0000_0000;

/// Infinity as a binary64 bit pattern. Greater patterns are no numbers, or
/// numbers with a minus sign.
pub const INFINITY: u64 = 0x7FF0_0000_0000_0000;

/// A non-negative real number, by its binary64 bit pattern.
#[derive(Debug, Clone, Copy, PartialEq, Eq, Structural)]
pub struct Reading {
    /// The bit pattern; the sign bit is zero.
    pub bits: u64,
}

impl Reading {
    /// Whether the pattern is that of a finite non-negative number.
    pub open spec fn finite(self) -> bool {
        self.bits < INFINITY
    }

    /// Whether the number lies above the mark with pattern `mark`. What is no
    /// number, or is negative, lies above no mark.
    pub open spec fn above(self, mark: u64) -> bool {
        mark < self.bits <= INFINITY
    }

    /// Whether the number lies above a mark.
    pub fn exceeds(&self, mark: u64) -> (r: bool)
        ensures
            r == self.above(mark),
    {
        mark < self.bits && self.bits <= INFINITY
    }

    /// Whether the number lies below the mark with pattern `mark`.
    pub open spec fn below(self, mark: u64) -> bool {
        self.bits < mark
    }

    /// Whether the number lies below a mark.
    pub fn falls_below(&self, mark: u64) -> (r: bool)
        ensures
            r == self.below(mark),
    {
        self.bits < mark
    }

    /// The number times 2 to the 1074th power, which is an integer for every
    /// finite pattern.
    pub open spec fn scaled(self) -> int {
        let exponent = self.bits as int / 0x10_0000_0000_0000;
        let mantissa = self.bits as int % 0x10_0000_0000_0000;
        if exponent == 0 {
            mantissa
        } else {
            (0x10_0000_0000_0000 + mantissa) * pow2((exponent - 1) as nat)
        }
    }

    /// The number zero.
    pub fn zero() -> (r: Reading)
        ensures
            r.bits == 0,
    {
        Reading { bits: 0 }
    }
}

/// The mark of each bit pattern constant is the number it is named after.
pub proof fn law_marks_are_exact()
    ensures
        (Reading { bits: ONE_HALF }).scaled() == pow2(1073),
        (Reading { bits: ONE }).scaled() == pow2(1074),
        (Reading { bits: ONE_THOUSAND }).scaled() == 1000 * pow2(1074),
        (Reading { bits: TWO_THOUSAND }).scaled() == 2000 * pow2(1074),
        (Reading { bits: THREE_TENTHS }).scaled() == 5404319552844595 * pow2(1020),
{
    assert(ONE_HALF as int / 0x10_0000_0000_0000 == 1022);
    assert(ONE as int / 0x10_0000_0000_0000 == 1023);
    assert(ONE_THOUSAND as int / 0x10_0000_0000_0000 == 1032);
    assert(TWO_THOUSAND as int / 0x10_0000_0000_0000 == 1033);
    assert(THREE_TENTHS as int / 0x10_0000_0000_0000 == 1021);
    vstd::arithmetic::power2::lemma_pow2_adds(52, 1021);
    vstd::arithmetic::power2::lemma_pow2_adds(52, 1022);
    vstd::arithmetic::power2::lemma_pow2_adds(43, 1031);
    vstd::arithmetic::power2::lemma_pow2_adds(42, 1032);
    vstd::arithmetic::power2::lemma2_to64_rest();
    assert(pow2(43) == 0x800_0000_0000);
    assert(pow2(42) == 0x400_0000_0000);
    assert(pow2(52) == 0x10_0000_0000_0000);
    assert(1000 * (0x800_0000_0000 * pow2(1031)) == (1000 * 0x800_0000_0000) * pow2(1031))
        by (nonlinear_arith);
    assert(2000 * (0x400_0000_0000 * pow2(1032)) == (2000 * 0x400_0000_0000) * pow2(1032))
        by (nonlinear_arith);
}

/// Bit patterns of finite non-negative numbers are ordered as the numbers are.
pub proof fn law_order_of_patterns(a: Reading, b: Reading)
    requires
        a.finite(),
        b.finite(),
    ensures
        a.bits < b.bits <==> a.scaled() < b.scaled(),
        b.above(a.bits) <==> a.scaled() < b.scaled(),
{
    if a.bits < b.bits {
        lemma_smaller_pattern(a, b);
    }
    if b.bits < a.bits {
        lemma_smaller_pattern(b, a);
    }
}

proof fn lemma_smaller_pattern(a: Reading, b: Reading)
    requires
        a.bits < b.bits,
        b.finite(),
    ensures
        a.scaled() < b.scaled(),
{
    let unit: int = 0x10_0000_0000_0000;
    let (ae, am) = (a.bits as int / unit, a.bits as int % unit);
    let (be, bm) = (b.bits as int / unit, b.bits as int % unit);
    if be == 0 {
    } else if ae == 0 {
        lemma_pow2_pos((be - 1) as nat);
        let p = pow2((be - 1) as nat) as int;
        assert((unit + bm) * p >= unit) by (nonlinear_arith)
            requires
                p >= 1,
                bm >= 0,
                unit > 0,
        ;
    } else if ae == be {
        lemma_pow2_pos((be - 1) as nat);
        let p = pow2((be - 1) as nat) as int;
        assert((unit + am) * p < (unit + bm) * p) by (nonlinear_arith)
            requires
                p >= 1,
                am < bm,
        ;
    } else {
        let p = pow2((ae - 1) as nat) as int;
        let q = pow2((be - 1) as nat) as int;
        lemma_pow2_pos((ae - 1) as nat);
        lemma_pow2_unfold(ae as nat);
        if ae < be - 1 {
            lemma_pow2_strictly_increases(ae as nat, (be - 1) as nat);
        }
        assert(q >= 2 * p);
        assert((unit + am) * p < (unit + bm) * q) by (nonlinear_arith)
            requires
                p >= 1,
                q >= 2 * p,
                0 <= am < unit,
                0 <= bm,
                unit > 0,
        {
            assert((unit + am) * p < (unit + unit) * p);
            assert((unit + unit) * p == unit * (2 * p));
            assert(unit * (2 * p) <= unit * q);
            assert(unit * q <= (unit + bm) * q);
        }
    }
}

/// What is no number lies above no mark, infinity lies above every finite one, and no
/// finite number is both above and below a mark.
pub proof fn law_what_is_no_number(a: Reading, mark: u64)
    ensures
        a.bits > INFINITY ==> !a.above(mark),
        mark < INFINITY ==> (Reading { bits: INFINITY }).above(mark),
        !(a.above(mark) && a.below(mark)),
        a.finite() && !a.above(mark) && !a.below(mark) ==> a.bits == mark,
{
}

} // verus!
