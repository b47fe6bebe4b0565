//! What the operations on binary32 numbers give.

use vstd::arithmetic::mul;
use vstd::arithmetic::power2;
use vstd::prelude::*;

use crate::binary32::Binary32;
use crate::number::Number;
use crate::rounded;
use crate::rounding;
use crate::rounding::INFINITE;

verus! {

/// The distance between two integers.
pub open spec fn distance(a: int, b: int) -> int {
    if a < b {
        b - a
    } else {
        a - b
    }
}

/// What a magnitude is worth: the 23 lower bits are a fraction, which counts from one
/// half on unless the bits above are all zero, and each step of these doubles it.
pub proof fn law_magnitude(exponent: int, fraction: int)
    requires
        0 <= exponent,
        0 <= fraction < 0x80_0000,
    ensures
        rounding::magnitude(fraction) == fraction,
        rounding::magnitude(0x80_0000 + fraction) == 0x80_0000 + fraction,
        rounding::magnitude((exponent + 2) * 0x80_0000 + fraction) == 2 * rounding::magnitude(
            (exponent + 1) * 0x80_0000 + fraction,
        ),
{
    rounding::lemma_magnitude(0, fraction);
    rounding::lemma_magnitude(0, 0x80_0000 + fraction);
    rounding::lemma_magnitude(exponent, 0x80_0000 + fraction);
    rounding::lemma_magnitude(exponent + 1, 0x80_0000 + fraction);
    power2::lemma2_to64();
    power2::lemma_pow2_unfold((exponent + 1) as nat);
    let q = 0x80_0000 + fraction;
    let p = power2::pow2(exponent as nat) as int;
    assert(q * (2 * p) == 2 * (q * p)) by (nonlinear_arith);
}

/// No magnitude is nearer to a quotient than the one that it is rounded to. Where another
/// one is as near, it has the odd bits of the two. Only quotients as large as the middle
/// between the largest magnitude and the next power of two become infinite.
pub proof fn law_nearest(num: int, den: int, m: int)
    requires
        0 <= num,
        0 < den,
        0 <= m < INFINITE,
    ensures
        ({
            let r = rounding::round(num, den);
            let off = distance(den * rounding::magnitude(r), num);
            let other = distance(den * rounding::magnitude(m), num);
            &&& 0 <= r <= INFINITE
            &&& r < INFINITE ==> off <= other
            &&& r < INFINITE && off == other && r != m ==> r % 2 == 0
            &&& r == INFINITE <==> den * (rounding::magnitude(INFINITE - 1) + rounding::magnitude(
                INFINITE as int,
            )) <= 2 * num
        }),
{
    let r = rounding::round(num, den);
    rounding::lemma_round_nearest(num, den);
    let a = rounding::magnitude(r);
    let b = rounding::magnitude(m);
    mul::lemma_mul_is_distributive_add(
        den,
        rounding::magnitude(INFINITE - 1),
        rounding::magnitude(INFINITE as int),
    );
    if r < INFINITE {
        let above = rounding::magnitude(r + 1);
        mul::lemma_mul_is_distributive_add(den, a, above);
        rounding::lemma_magnitude_increases(r, r + 1);
        rounding::lemma_magnitude_increases(r, INFINITE - 1);
        rounding::lemma_magnitude_increases(r + 1, INFINITE as int);
        mul::lemma_mul_inequality(a, rounding::magnitude(INFINITE - 1), den);
        mul::lemma_mul_inequality(above, rounding::magnitude(INFINITE as int), den);
        mul::lemma_mul_strict_inequality(a, above, den);
        mul::lemma_mul_is_commutative(den, a);
        mul::lemma_mul_is_commutative(den, b);
        mul::lemma_mul_is_commutative(den, above);
        mul::lemma_mul_is_commutative(den, rounding::magnitude(INFINITE - 1));
        mul::lemma_mul_is_commutative(den, rounding::magnitude(INFINITE as int));
        if m > r {
            rounding::lemma_magnitude_increases(r + 1, m);
            mul::lemma_mul_inequality(above, b, den);
        } else if m < r {
            let below = rounding::magnitude(r - 1);
            rounding::lemma_magnitude_increases(m, r - 1);
            rounding::lemma_magnitude_increases(r - 1, r);
            mul::lemma_mul_is_commutative(den, below);
            mul::lemma_mul_is_distributive_add(den, below, a);
            mul::lemma_mul_inequality(b, below, den);
            mul::lemma_mul_strict_inequality(below, a, den);
        }
        if den * (rounding::magnitude(INFINITE - 1) + rounding::magnitude(INFINITE as int)) <= 2
            * num {
            assert(2 * num == den * (a + above));
            if r < INFINITE - 1 {
                rounding::lemma_magnitude_increases(r, INFINITE - 1);
                mul::lemma_mul_strict_inequality(a, rounding::magnitude(INFINITE - 1), den);
            }
            assert(r == INFINITE - 1);
        }
    } else {
        rounding::lemma_magnitude_increases(INFINITE - 1, INFINITE as int);
    }
}

/// The values that the columns are sized with: zero, one, and the number nearest to a
/// hundredth.
pub proof fn law_constants(m: int)
    requires
        0 <= m < INFINITE,
    ensures
        Binary32::zero().value() == 0,
        Binary32::one().value() == power2::pow2(149),
        Binary32::slack().finite(),
        distance(100 * Binary32::slack().value(), power2::pow2(149) as int) <= distance(
            100 * rounding::magnitude(m),
            power2::pow2(149) as int,
        ),
{
    rounded::lemma_one();
    rounding::lemma_magnitude(0, 0);
    let slack = Binary32::slack();
    let q = 10737418int;
    assert(slack.low() == 119 * 0x80_0000 + q);
    rounding::lemma_magnitude(119, q - 1);
    rounding::lemma_magnitude(119, q);
    rounding::lemma_magnitude(119, q + 1);
    power2::lemma_pow2_adds(30, 119);
    power2::lemma_pow2_pos(119);
    power2::lemma2_to64();
    let p = power2::pow2(119) as int;
    let unit = power2::pow2(149) as int;
    assert(unit == 0x4000_0000 * p);
    assert(100 * ((q - 1) * p + q * p) < 2 * unit && 2 * unit < 100 * (q * p + (q + 1) * p))
        by (nonlinear_arith)
        requires
            unit == 0x4000_0000 * p,
            q == 10737418,
            0 < p,
    ;
    assert(rounding::nearest(unit, 100, slack.low()));
    rounding::lemma_round(unit, 100, slack.low());
    law_nearest(unit, 100, m);
}

/// A count is the nearest number.
pub proof fn law_count(n: int, x: Binary32)
    requires
        0 <= n,
        x.finite(),
        Binary32::count(n).finite(),
    ensures
        distance(Binary32::count(n).value(), n * power2::pow2(149)) <= distance(
            x.value(),
            n * power2::pow2(149),
        ),
{
    let num = n * power2::pow2(149);
    mul::lemma_mul_nonnegative(n, power2::pow2(149) as int);
    rounding::lemma_round_nearest(num, 1);
    rounded::lemma_signed(false, rounding::round(num, 1));
    law_nearest(num, 1, x.low());
    rounded::lemma_value(x);
}

/// The opposite of a number has the same size and the other sign.
pub proof fn law_opposite(a: Binary32)
    ensures
        a.opposite().negative() != a.negative(),
        a.opposite().low() == a.low(),
        a.opposite().finite() ==> a.opposite().value() == -a.value(),
{
}

/// No number is nearer to the sum of two finite numbers than the result. A sum that is
/// zero is negative only where both numbers are.
pub proof fn law_sum(a: Binary32, b: Binary32, x: Binary32)
    requires
        a.finite(),
        b.finite(),
        x.finite(),
    ensures
        ({
            let exact = a.value() + b.value();
            let s = a.sum(b);
            &&& !s.nan()
            &&& s.finite() ==> distance(s.value(), exact) <= distance(x.value(), exact)
            &&& exact == 0 ==> s.low() == 0 && s.negative() == (a.negative() && b.negative())
            &&& exact > 0 ==> !s.negative()
            &&& exact < 0 ==> s.negative()
        }),
{
    let exact = a.value() + b.value();
    let size = if exact < 0 {
        -exact
    } else {
        exact
    };
    rounding::lemma_round_nearest(size, 1);
    rounded::lemma_signed(exact < 0, rounding::round(size, 1));
    rounded::lemma_signed(a.negative() && b.negative(), 0);
    law_nearest(size, 1, x.low());
    law_nearest(size, 1, 0);
    rounded::lemma_value(x);
    rounding::lemma_magnitude(0, 0);
}

/// Taking a number away is adding its opposite.
pub proof fn law_difference(a: Binary32, b: Binary32, x: Binary32)
    requires
        a.finite(),
        b.finite(),
        x.finite(),
    ensures
        ({
            let exact = a.value() - b.value();
            let s = a.difference(b);
            &&& !s.nan()
            &&& s.finite() ==> distance(s.value(), exact) <= distance(x.value(), exact)
            &&& exact > 0 ==> !s.negative()
            &&& exact < 0 ==> s.negative()
        }),
{
    law_opposite(b);
    law_sum(a, b.opposite(), x);
}

/// No number is nearer to the product of two finite numbers than the result, which is
/// negative where one of them is. Values are counted in units, so that a product is
/// counted in squared units.
pub proof fn law_product(a: Binary32, b: Binary32, x: Binary32)
    requires
        a.finite(),
        b.finite(),
        x.finite(),
    ensures
        ({
            let unit = power2::pow2(149) as int;
            let exact = a.size() * b.size();
            let s = a.product(b);
            &&& !s.nan()
            &&& s.negative() == (a.negative() != b.negative())
            &&& s.finite() ==> distance(unit * s.size(), exact) <= distance(unit * x.size(), exact)
        }),
{
    let unit = power2::pow2(149) as int;
    power2::lemma_pow2_pos(149);
    rounded::lemma_value(a);
    rounded::lemma_value(b);
    mul::lemma_mul_nonnegative(a.size(), b.size());
    rounding::lemma_round_nearest(a.size() * b.size(), unit);
    rounded::lemma_signed(
        a.negative() != b.negative(),
        rounding::round(a.size() * b.size(), unit),
    );
    law_nearest(a.size() * b.size(), unit, x.low());
}

/// No number is nearer to the quotient of two finite numbers than the result, which is
/// negative where one of them is.
pub proof fn law_quotient(a: Binary32, b: Binary32, x: Binary32)
    requires
        a.finite(),
        b.finite(),
        !b.is_zero(),
        x.finite(),
    ensures
        ({
            let exact = a.size() * power2::pow2(149);
            let s = a.quotient(b);
            &&& !s.nan()
            &&& s.negative() == (a.negative() != b.negative())
            &&& s.finite() ==> distance(b.size() * s.size(), exact) <= distance(
                b.size() * x.size(),
                exact,
            )
        }),
{
    let num = a.size() * power2::pow2(149);
    rounded::lemma_value(a);
    rounded::lemma_value(b);
    mul::lemma_mul_nonnegative(a.size(), power2::pow2(149) as int);
    rounding::lemma_round_nearest(num, b.size());
    rounded::lemma_signed(a.negative() != b.negative(), rounding::round(num, b.size()));
    law_nearest(num, b.size(), x.low());
}

/// Operations on what is not a number give none, and so do the difference of infinite
/// numbers, the product of zero and an infinite one, and the quotients of two zeros and of
/// two infinite numbers. All else that is done with infinite numbers and zeros gives the
/// infinite numbers and zeros of the expected sign.
pub proof fn law_special(a: Binary32, b: Binary32)
    ensures
        a.nan() || b.nan() ==> a.sum(b).nan() && a.difference(b).nan() && a.product(b).nan()
            && a.quotient(b).nan(),
        a.infinite() && b.infinite() ==> a.quotient(b).nan() && a.product(b).infinite() && (
        a.negative() == b.negative() ==> a.sum(b) == a && a.difference(b).nan()) && (a.negative()
            != b.negative() ==> a.difference(b) == a && a.sum(b).nan()),
        a.infinite() && b.finite() ==> a.sum(b) == a && a.difference(b) == a && a.quotient(
            b,
        ).infinite(),
        a.finite() && b.infinite() ==> a.sum(b) == b && a.difference(b) == b.opposite()
            && a.quotient(b).is_zero(),
        a.is_zero() && b.infinite() ==> a.product(b).nan() && b.product(a).nan(),
        a.finite() && !a.is_zero() && b.infinite() ==> a.product(b).infinite() && b.product(
            a,
        ).infinite(),
        a.is_zero() && b.is_zero() ==> a.quotient(b).nan(),
        a.finite() && !a.is_zero() && b.is_zero() ==> a.quotient(b).infinite(),
        !a.nan() && !b.nan() && !a.product(b).nan() ==> a.product(b).negative() == (a.negative()
            != b.negative()),
        !a.nan() && !b.nan() && !a.quotient(b).nan() ==> a.quotient(b).negative() == (a.negative()
            != b.negative()),
{
    let negative = a.negative() != b.negative();
    rounded::lemma_signed(negative, INFINITE as int);
    rounded::lemma_signed(negative, 0);
    if a.finite() && b.finite() {
        law_product(a, b, a);
        if !b.is_zero() {
            law_quotient(a, b, a);
        }
    }
}

/// Numbers are compared by their values, infinite ones lie outside of all others, and what
/// is not a number compares with nothing. Both zeros are equal.
pub proof fn law_comparison(a: Binary32, b: Binary32)
    ensures
        a.nan() || b.nan() ==> !a.less(b) && !a.at_most(b),
        a.finite() && b.finite() ==> (a.less(b) <==> a.value() < b.value()) && (a.at_most(b)
            <==> a.value() <= b.value()),
        a.finite() && b.infinite() ==> a.less(b) == !b.negative() && b.less(a) == b.negative()
            && a.at_most(b) == a.less(b) && b.at_most(a) == b.less(a),
        a.infinite() && b.infinite() ==> (a.less(b) <==> a.negative() && !b.negative()) && (
        a.at_most(b) <==> a.negative() || !b.negative()),
        a.is_zero() <==> a.finite() && a.value() == 0,
{
    if a.finite() {
        rounded::lemma_value(a);
    }
    if a.finite() && b.finite() {
        rounded::lemma_less_value(a, b);
        rounded::lemma_less_value(b, a);
    }
}

/// The larger and the smaller of two numbers are one of them each, and are neither smaller
/// nor larger than both. Where one of the two is not a number, they are the other.
pub proof fn law_choice(a: Binary32, b: Binary32)
    ensures
        a.larger(b) == a || a.larger(b) == b,
        a.smaller(b) == a || a.smaller(b) == b,
        !a.nan() && !b.nan() ==> a.at_most(a.larger(b)) && b.at_most(a.larger(b)) && a.smaller(
            b,
        ).at_most(a) && a.smaller(b).at_most(b),
        a.nan() ==> a.larger(b) == b && a.smaller(b) == b,
        b.nan() && !a.nan() ==> a.larger(b) == a && a.smaller(b) == a,
{
}

}
