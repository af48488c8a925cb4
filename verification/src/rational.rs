//! Exact slopes: ratios of two 32-bit integers, computed by `num_rational`.
//!
//! A slope is held as its numerator and denominator. The arithmetic on
//! slopes is that of `num_rational::Rational32`, called through one trusted
//! function per operation; what is built on it is verified.
use num_rational::Rational32;
use vstd::prelude::*;

verus! {

/// A ratio `numer / denom`.
#[derive(Clone, Copy, Debug)]
pub struct Slope {
    pub numer: i32,
    pub denom: i32,
}

/// `v` without its sign.
pub open spec fn abs(v: int) -> int {
    if v >= 0 {
        v
    } else {
        -v
    }
}

/// Whether no integer above 1 divides both `n` and `d`.
pub open spec fn lowest_terms(n: int, d: int) -> bool {
    forall|k: int| k > 1 ==> !(#[trigger] (n % k) == 0 && d % k == 0)
}

/// `n / d` rounded towards zero, for a positive `d`.
pub open spec fn truncated(n: int, d: int) -> int {
    if n >= 0 {
        n / d
    } else {
        -((-n) / d)
    }
}

/// `n / d` rounded towards plus infinity, for a positive `d`.
pub open spec fn ceiling(n: int, d: int) -> int {
    -((-n) / d)
}

impl Slope {
    /// The denominator is positive, and the numerator can be negated.
    pub open spec fn wf(self) -> bool {
        self.denom > 0 && self.numer > i32::MIN
    }

    /// Whether the slope is the ratio of `n` to `d`, for a positive `d`.
    pub open spec fn is(self, n: int, d: int) -> bool {
        self.numer * d == n * self.denom
    }

    /// Whether the slope is at most `other`, both with positive denominators.
    pub open spec fn at_most(self, other: Slope) -> bool {
        self.numer * other.denom <= other.numer * self.denom
    }
}

/// `Ratio::new`: the ratio of `numer` to `denom` in lowest terms, with a
/// positive denominator. It panics on a zero denominator; the least `i32`
/// is left out because reducing may negate both parts.
#[verifier::external_body]
pub(crate) fn ratio_new(numer: i32, denom: i32) -> (r: Slope)
    requires
        denom != 0,
        numer > i32::MIN,
        denom > i32::MIN,
    ensures
        r.wf(),
        r.is(numer as int, denom as int),
        lowest_terms(r.numer as int, r.denom as int),
        abs(r.numer as int) <= abs(numer as int),
        r.denom <= abs(denom as int),
{
    let q = Rational32::new(numer, denom);
    Slope { numer: *q.numer(), denom: *q.denom() }
}

/// `Ratio::from` an integer: that integer over 1.
#[verifier::external_body]
pub(crate) fn ratio_from_integer(t: i32) -> (r: Slope)
    ensures
        r.numer == t,
        r.denom == 1,
{
    let q = Rational32::from(t);
    Slope { numer: *q.numer(), denom: *q.denom() }
}

/// `Ratio * integer`: the product, with a positive denominator that is no
/// greater than that of `s`. The product of the numerator and `k` is
/// required to fit, as the multiplication inside is unchecked.
#[verifier::external_body]
pub(crate) fn ratio_mul_integer(s: Slope, k: i32) -> (r: Slope)
    requires
        s.wf(),
        k > i32::MIN,
        -i32::MAX <= s.numer * k <= i32::MAX,
    ensures
        r.wf(),
        r.is(s.numer * k, s.denom as int),
        abs(r.numer as int) <= abs(s.numer * k),
        r.denom <= s.denom,
{
    let q = Rational32::new_raw(s.numer, s.denom) * k;
    Slope { numer: *q.numer(), denom: *q.denom() }
}

/// `Ratio + Ratio`: the sum over a positive denominator. The numerators
/// over the product of the denominators are required to fit, as the
/// arithmetic inside is unchecked.
#[verifier::external_body]
pub(crate) fn ratio_add(a: Slope, b: Slope) -> (r: Slope)
    requires
        a.wf(),
        b.wf(),
        a.denom * b.denom <= i32::MAX,
        abs(a.numer as int) * b.denom + abs(b.numer as int) * a.denom <= i32::MAX,
    ensures
        r.wf(),
        r.is(a.numer * b.denom + b.numer * a.denom, a.denom * b.denom),
        abs(r.numer as int) <= abs(a.numer as int) * b.denom + abs(b.numer as int) * a.denom,
        r.denom <= a.denom * b.denom,
{
    let q = Rational32::new_raw(a.numer, a.denom) + Rational32::new_raw(b.numer, b.denom);
    Slope { numer: *q.numer(), denom: *q.denom() }
}

/// `Ratio - Ratio`: the difference over a positive denominator. The
/// numerators over the product of the denominators are required to fit, as
/// the arithmetic inside is unchecked.
#[verifier::external_body]
pub(crate) fn ratio_sub(a: Slope, b: Slope) -> (r: Slope)
    requires
        a.wf(),
        b.wf(),
        a.denom * b.denom <= i32::MAX,
        abs(a.numer as int) * b.denom + abs(b.numer as int) * a.denom <= i32::MAX,
    ensures
        r.wf(),
        r.is(a.numer * b.denom - b.numer * a.denom, a.denom * b.denom),
        abs(r.numer as int) <= abs(a.numer as int) * b.denom + abs(b.numer as int) * a.denom,
        r.denom <= a.denom * b.denom,
{
    let q = Rational32::new_raw(a.numer, a.denom) - Rational32::new_raw(b.numer, b.denom);
    Slope { numer: *q.numer(), denom: *q.denom() }
}

/// `Ratio::floor`: the greatest integer that is not above the ratio, over 1.
/// For a negative ratio the numerator less the denominator is computed
/// inside, and is required to fit.
#[verifier::external_body]
pub(crate) fn ratio_floor(s: Slope) -> (r: Slope)
    requires
        s.wf(),
        s.numer - s.denom >= i32::MIN,
    ensures
        r.wf(),
        r.numer == s.numer as int / s.denom as int,
        r.denom == 1,
{
    let q = Rational32::new_raw(s.numer, s.denom).floor();
    Slope { numer: *q.numer(), denom: *q.denom() }
}

/// `Ratio::ceil`: the least integer that is not below the ratio, over 1. For
/// a ratio that is not negative the numerator plus the denominator is
/// computed inside, and is required to fit.
#[verifier::external_body]
pub(crate) fn ratio_ceil(s: Slope) -> (r: Slope)
    requires
        s.wf(),
        s.numer + s.denom <= i32::MAX,
    ensures
        r.wf(),
        r.numer == ceiling(s.numer as int, s.denom as int),
        r.denom == 1,
{
    let q = Rational32::new_raw(s.numer, s.denom).ceil();
    Slope { numer: *q.numer(), denom: *q.denom() }
}

/// `Ratio::to_integer`: the ratio rounded towards zero.
#[verifier::external_body]
pub(crate) fn ratio_to_integer(s: Slope) -> (r: i32)
    requires
        s.wf(),
    ensures
        r == truncated(s.numer as int, s.denom as int),
{
    Rational32::new_raw(s.numer, s.denom).to_integer()
}

/// `Ratio <= Ratio`, the comparison of the two ratios.
#[verifier::external_body]
pub(crate) fn ratio_le(a: Slope, b: Slope) -> (r: bool)
    requires
        a.wf(),
        b.wf(),
    ensures
        r == a.at_most(b),
{
    Rational32::new_raw(a.numer, a.denom) <= Rational32::new_raw(b.numer, b.denom)
}

/// Ratios that are equal have the same integer part.
pub proof fn lemma_floor_of_equal(a: int, b: int, c: int, d: int)
    requires
        b > 0,
        d > 0,
        a * d == c * b,
    ensures
        a / b == c / d,
{
    let q = a / b;
    let r = a % b;
    assert(a == b * q + r && 0 <= r < b) by {
        vstd::arithmetic::div_mod::lemma_fundamental_div_mod(a, b);
    }
    assert(c * b == (d * q) * b + r * d) by (nonlinear_arith)
        requires
            a * d == c * b,
            a == b * q + r,
    ;
    assert(d * q <= c < d * q + d) by (nonlinear_arith)
        requires
            c * b == (d * q) * b + r * d,
            0 <= r < b,
            b > 0,
            d > 0,
    ;
    let q2 = c / d;
    let r2 = c % d;
    assert(c == d * q2 + r2 && 0 <= r2 < d) by {
        vstd::arithmetic::div_mod::lemma_fundamental_div_mod(c, d);
    }
    assert(q2 == q) by (nonlinear_arith)
        requires
            d * q <= c < d * q + d,
            c == d * q2 + r2,
            0 <= r2 < d,
            d > 0,
    ;
}

/// The bound within which slopes can be scaled and rounded in 32 bits.
pub open spec fn roundable(n: Slope) -> bool {
    &&& n.wf()
    &&& 2 * abs(n.numer as int) + 3 * n.denom <= i32::MAX
}

/// `n` rounded to the nearest integer, a tie rounded up.
pub open spec fn spec_round_ties_up(n: int, d: int) -> int {
    (2 * n + d) / (2 * d)
}

/// `n` rounded to the nearest integer, a tie rounded down.
pub open spec fn spec_round_ties_down(n: int, d: int) -> int {
    ceiling(2 * n - d, 2 * d)
}

/// Rounds [x, x + 0.5) to x and [x + 0.5, x + 1) to x + 1.
pub fn round_ties_up(n: Slope) -> (r: i32)
    requires
        roundable(n),
    ensures
        r == spec_round_ties_up(n.numer as int, n.denom as int),
{
    let half = ratio_new(1, 2);
    assert(half.numer == 1 && half.denom == 2);
    let shifted = ratio_add(n, half);
    let floor = ratio_floor(shifted);
    proof {
        let sn = shifted.numer as int;
        let sd = shifted.denom as int;
        let nn = n.numer as int;
        let nd = n.denom as int;
        assert(sn * (2 * nd) == (2 * nn + nd) * sd) by (nonlinear_arith)
            requires
                sn * (nd * 2) == (nn * 2 + 1 * nd) * sd,
        ;
        lemma_floor_of_equal(
            shifted.numer as int,
            shifted.denom as int,
            2 * n.numer + n.denom,
            2 * n.denom,
        );
    }
    ratio_to_integer(floor)
}

/// Rounds [x, x + 0.5] to x and (x + 0.5, x + 1) to x + 1.
pub fn round_ties_down(n: Slope) -> (r: i32)
    requires
        roundable(n),
    ensures
        r == spec_round_ties_down(n.numer as int, n.denom as int),
{
    let half = ratio_new(1, 2);
    assert(half.numer == 1 && half.denom == 2);
    let shifted = ratio_sub(n, half);
    let ceil = ratio_ceil(shifted);
    proof {
        let sn = shifted.numer as int;
        let sd = shifted.denom as int;
        let nn = n.numer as int;
        let nd = n.denom as int;
        assert((-sn) * (2 * nd) == (-(2 * nn - nd)) * sd) by (nonlinear_arith)
            requires
                sn * (nd * 2) == (nn * 2 - 1 * nd) * sd,
        ;
        lemma_floor_of_equal(
            -(shifted.numer as int),
            shifted.denom as int,
            -(2 * n.numer - n.denom),
            2 * n.denom,
        );
    }
    ratio_to_integer(ceil)
}

} // verus!
