//! Fractions, for the rates, shares and thresholds of the library.

use vstd::prelude::*;

verus! {

/// The fraction `num / den`.
///
/// Two fractions are compared by cross multiplication. A fraction `n / 0` with
/// `n > 0` is therefore above every proper fraction, and `0 / 0` is neither
/// above nor below anything.
#[derive(Debug, Clone, Copy, PartialEq, Eq, Structural)]
pub struct Ratio {
    /// Numerator.
    pub num: u64,
    /// Denominator.
    pub den: u64,
}

impl Ratio {
    /// `self > other`, as fractions.
    pub open spec fn above(self, other: Ratio) -> bool {
        self.num * other.den > other.num * self.den
    }

    /// The fraction `num / den`.
    pub fn new(num: u64, den: u64) -> (r: Ratio)
        ensures
            r == (Ratio { num, den }),
    {
        Ratio { num, den }
    }

    /// Whether this fraction is strictly greater than `other`.
    pub fn exceeds(&self, other: &Ratio) -> (r: bool)
        ensures
            r == self.above(*other),
    {
        proof {
            lemma_product_fits(self.num, other.den);
            lemma_product_fits(other.num, self.den);
        }
        (self.num as u128) * (other.den as u128) > (other.num as u128) * (self.den as u128)
    }
}

/// The product of two 64-bit numbers fits in 128 bits.
pub proof fn lemma_product_fits(a: u64, b: u64)
    ensures
        0 <= a * b <= u128::MAX,
{
    assert(0 <= a * b <= 0xffff_ffff_ffff_ffff * 0xffff_ffff_ffff_ffff) by (nonlinear_arith)
        requires
            0 <= a <= 0xffff_ffff_ffff_ffff,
            0 <= b <= 0xffff_ffff_ffff_ffff,
    ;
}

/// Fractions of one denominator are ordered as their numerators are, and those of
/// one numerator, not zero, the other way round from their denominators.
pub proof fn law_above_is_greater(a: u64, b: u64, c: u64)
    requires
        c > 0,
    ensures
        (Ratio { num: a, den: c }).above(Ratio { num: b, den: c }) <==> a > b,
        (Ratio { num: c, den: a }).above(Ratio { num: c, den: b }) <==> a < b,
{
    assert(a * c > b * c <==> a > b) by (nonlinear_arith)
        requires
            c > 0,
    ;
    assert(c * b > c * a <==> b > a) by (nonlinear_arith)
        requires
            c > 0,
    ;
}

/// A fraction is the same when it is expanded: it is above, and below, the same
/// fractions.
pub proof fn law_expanding_changes_nothing(a: Ratio, b: Ratio, expanded: Ratio, k: int)
    requires
        k > 0,
        expanded.num == k * a.num,
        expanded.den == k * a.den,
    ensures
        expanded.above(b) == a.above(b),
        b.above(expanded) == b.above(a),
{
    let (n, d, m, e) = (a.num as int, a.den as int, b.num as int, b.den as int);
    assert((k * n) * e > m * (k * d) <==> n * e > m * d) by (nonlinear_arith)
        requires
            k > 0,
    {
        assert((k * n) * e == k * (n * e));
        assert(m * (k * d) == k * (m * d));
    }
    assert(m * (k * d) > (k * n) * e <==> m * d > n * e) by (nonlinear_arith)
        requires
            k > 0,
    {
        assert((k * n) * e == k * (n * e));
        assert(m * (k * d) == k * (m * d));
    }
}

/// `>` on proper fractions is a strict order: it is transitive.
pub proof fn law_above_is_transitive(a: Ratio, b: Ratio, c: Ratio)
    requires
        a.den > 0,
        b.den > 0,
        c.den > 0,
        a.above(b),
        b.above(c),
    ensures
        a.above(c),
{
    let (an, ad, bn, bd, cn, cd) = (
        a.num as int,
        a.den as int,
        b.num as int,
        b.den as int,
        c.num as int,
        c.den as int,
    );
    assert(an * cd > cn * ad) by (nonlinear_arith)
        requires
            an * bd > bn * ad,
            bn * cd > cn * bd,
            ad > 0,
            bd > 0,
            cd > 0,
            an >= 0,
            bn >= 0,
            cn >= 0,
    {
        assert((an * bd) * cd > (bn * ad) * cd);
        assert((bn * cd) * ad > (cn * bd) * ad);
        assert((an * bd) * cd == (an * cd) * bd);
        assert((bn * ad) * cd == (bn * cd) * ad);
        assert((cn * bd) * ad == (cn * ad) * bd);
        assert((an * cd) * bd > (cn * ad) * bd);
    }
}

} // verus!
