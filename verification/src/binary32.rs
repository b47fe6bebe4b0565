//! IEEE 754 binary32 numbers, computed with integers.
//!
//! Widths and percentages are binary32 numbers. They are carried as their bits,
//! and each operation gives the bits that the standard prescribes: the exact
//! result rounded to the nearest number, ties to even.
//!
//! The standard leaves two things open. Where a result is not a number, it is the
//! quiet one whose other bits are zero. Where a positive and a negative zero are
//! compared for the larger or the smaller one, it is the first of them.

use vstd::arithmetic::div_mod;
use vstd::arithmetic::mul;
use vstd::arithmetic::power2;
use vstd::prelude::*;

use crate::number::Number;
use crate::rounding;
use crate::rounding::INFINITE;

verus! {

/// A binary32 number. Two of them are `==` where their bits are the same.
#[derive(Clone, Copy, Debug, PartialEq, Eq, Structural)]
pub struct Binary32 {
    pub bits: u32,
}

/// The bit that makes a number negative.
pub const SIGN: u32 = 0x8000_0000;

impl Binary32 {
    /// Whether the sign bit is set. It is in negative zero too.
    pub open spec fn negative(self) -> bool {
        self.bits >= SIGN
    }

    /// The bits without the sign bit.
    pub open spec fn low(self) -> int {
        if self.bits >= SIGN {
            self.bits - SIGN
        } else {
            self.bits as int
        }
    }

    /// Whether this is not a number.
    pub open spec fn nan(self) -> bool {
        self.low() > INFINITE
    }

    pub open spec fn infinite(self) -> bool {
        self.low() == INFINITE
    }

    pub open spec fn finite(self) -> bool {
        self.low() < INFINITE
    }

    /// What a finite number is worth without its sign, in units of 2^-149.
    pub open spec fn size(self) -> int {
        rounding::magnitude(self.low())
    }

    /// What a finite number is worth, in units of 2^-149.
    pub open spec fn value(self) -> int {
        if self.negative() {
            -self.size()
        } else {
            self.size()
        }
    }

    /// The place of a number in the order of all numbers, infinite ones included.
    pub open spec fn rank(self) -> int {
        if self.negative() {
            -self.low()
        } else {
            self.low()
        }
    }

    /// The number with the sign `negative` and the other bits `low`.
    pub open spec fn signed(negative: bool, low: int) -> Binary32 {
        Binary32 {
            bits: (if negative {
                SIGN + low
            } else {
                low
            }) as u32,
        }
    }

    /// The result of an operation that has none.
    pub open spec fn not_a_number() -> Binary32 {
        Binary32 { bits: 0x7fc0_0000 }
    }

    pub open spec fn opposite(self) -> Binary32 {
        Self::signed(!self.negative(), self.low())
    }
}

impl Number for Binary32 {
    open spec fn zero() -> Self {
        Binary32 { bits: 0 }
    }

    open spec fn one() -> Self {
        Binary32 { bits: 0x3f80_0000 }
    }

    open spec fn slack() -> Self {
        Binary32 { bits: 0x3c23_d70a }
    }

    open spec fn count(n: int) -> Self {
        Self::signed(false, rounding::round(n * power2::pow2(149), 1))
    }

    open spec fn sum(self, other: Self) -> Self {
        if self.nan() || other.nan() {
            Self::not_a_number()
        } else if self.infinite() {
            if other.infinite() && self.negative() != other.negative() {
                Self::not_a_number()
            } else {
                self
            }
        } else if other.infinite() {
            other
        } else {
            let total = self.value() + other.value();
            if total == 0 {
                Self::signed(self.negative() && other.negative(), 0)
            } else if total < 0 {
                Self::signed(true, rounding::round(-total, 1))
            } else {
                Self::signed(false, rounding::round(total, 1))
            }
        }
    }

    open spec fn difference(self, other: Self) -> Self {
        self.sum(other.opposite())
    }

    open spec fn product(self, other: Self) -> Self {
        let negative = self.negative() != other.negative();
        if self.nan() || other.nan() {
            Self::not_a_number()
        } else if self.infinite() || other.infinite() {
            if self.is_zero() || other.is_zero() {
                Self::not_a_number()
            } else {
                Self::signed(negative, INFINITE as int)
            }
        } else {
            Self::signed(
                negative,
                rounding::round(self.size() * other.size(), power2::pow2(149) as int),
            )
        }
    }

    open spec fn quotient(self, other: Self) -> Self {
        let negative = self.negative() != other.negative();
        if self.nan() || other.nan() {
            Self::not_a_number()
        } else if self.infinite() {
            if other.infinite() {
                Self::not_a_number()
            } else {
                Self::signed(negative, INFINITE as int)
            }
        } else if other.infinite() {
            Self::signed(negative, 0)
        } else if other.is_zero() {
            if self.is_zero() {
                Self::not_a_number()
            } else {
                Self::signed(negative, INFINITE as int)
            }
        } else {
            Self::signed(
                negative,
                rounding::round(self.size() * power2::pow2(149), other.size()),
            )
        }
    }

    /// Of two numbers, the larger one; where one is not a number, the other one.
    open spec fn larger(self, other: Self) -> Self {
        if self.nan() || self.less(other) {
            other
        } else {
            self
        }
    }

    /// Of two numbers, the smaller one; where one is not a number, the other one.
    open spec fn smaller(self, other: Self) -> Self {
        if self.nan() || other.less(self) {
            other
        } else {
            self
        }
    }

    open spec fn less(self, other: Self) -> bool {
        !self.nan() && !other.nan() && self.rank() < other.rank()
    }

    open spec fn at_most(self, other: Self) -> bool {
        !self.nan() && !other.nan() && self.rank() <= other.rank()
    }

    open spec fn is_zero(self) -> bool {
        self.low() == 0
    }
}

impl Binary32 {
    /// The number with the given bits.
    pub fn from_bits(bits: u32) -> (r: Self)
        ensures
            r.bits == bits,
    {
        Binary32 { bits }
    }

    /// The bits of the number.
    pub fn to_bits(self) -> (r: u32)
        ensures
            r == self.bits,
    {
        self.bits
    }

    /// Positive zero.
    pub fn nil() -> (r: Self)
        ensures
            r == Self::zero(),
    {
        Binary32 { bits: 0 }
    }

    fn compose(negative: bool, low: u32) -> (r: Self)
        requires
            low <= INFINITE,
        ensures
            r == Self::signed(negative, low as int),
    {
        if negative {
            Binary32 { bits: SIGN + low }
        } else {
            Binary32 { bits: low }
        }
    }

    fn is_negative(self) -> (r: bool)
        ensures
            r == self.negative(),
    {
        self.bits >= SIGN
    }

    fn low_bits(self) -> (r: u32)
        ensures
            r == self.low(),
            r < SIGN,
    {
        if self.bits >= SIGN {
            self.bits - SIGN
        } else {
            self.bits
        }
    }

    /// The number with the other sign.
    pub fn negated(self) -> (r: Self)
        ensures
            r == self.opposite(),
    {
        if self.bits >= SIGN {
            Binary32 { bits: self.bits - SIGN }
        } else {
            Binary32 { bits: self.bits + SIGN }
        }
    }

    /// Whether this is less than `other`. It is not where one is not a number.
    pub fn lt(self, other: Self) -> (r: bool)
        ensures
            r == self.less(other),
    {
        let a: u32 = self.low_bits();
        let b: u32 = other.low_bits();
        if a > INFINITE || b > INFINITE {
            false
        } else if self.is_negative() {
            if other.is_negative() {
                b < a
            } else {
                a > 0 || b > 0
            }
        } else {
            !other.is_negative() && a < b
        }
    }

    /// Whether this is less than `other` or equal to it. It is neither where one is
    /// not a number.
    pub fn le(self, other: Self) -> (r: bool)
        ensures
            r == self.at_most(other),
    {
        self.low_bits() <= INFINITE && other.low_bits() <= INFINITE && !other.lt(self)
    }

    /// Whether this equals zero, of either sign.
    pub fn equals_zero(self) -> (r: bool)
        ensures
            r == self.is_zero(),
    {
        self.low_bits() == 0
    }

    /// The larger of two numbers.
    pub fn max(self, other: Self) -> (r: Self)
        ensures
            r == self.larger(other),
    {
        if self.low_bits() > INFINITE || self.lt(other) {
            other
        } else {
            self
        }
    }

    /// The smaller of two numbers.
    pub fn min(self, other: Self) -> (r: Self)
        ensures
            r == self.smaller(other),
    {
        if self.low_bits() > INFINITE || other.lt(self) {
            other
        } else {
            self
        }
    }
}

/// The significand of a finite number and the place value of its last digit.
fn parts(low: u32) -> (r: (u64, i32))
    requires
        low < INFINITE,
    ensures
        rounding::magnitude(low as int) == r.0 * power2::pow2(r.1 as nat),
        r.0 < 0x100_0000,
        0 <= r.1 <= 253,
        r.1 > 0 ==> r.0 >= 0x80_0000,
        r.0 == 0 <==> low == 0,
{
    let exponent: u32 = low / 0x80_0000;
    let fraction: u32 = low % 0x80_0000;
    proof {
        power2::lemma2_to64();
        mul::lemma_mul_basics(fraction as int);
    }
    if exponent == 0 {
        (fraction as u64, 0)
    } else {
        (0x80_0000 + fraction as u64, exponent as i32 - 1)
    }
}

/// An exact sum of scaled integers, or one that a tiny term moves off an integer.
proof fn lemma_brackets_whole(num: int, sig: int, exp: int, inexact: bool)
    requires
        exp >= 0,
        inexact ==> sig * power2::pow2(exp as nat) < num < (sig + 1) * power2::pow2(exp as nat),
        !inexact ==> num == sig * power2::pow2(exp as nat),
    ensures
        rounding::brackets(num, 1, sig, exp, inexact),
{
    power2::lemma2_to64();
    assert(num * power2::pow2(0) == num);
    assert(1 * sig == sig && 1 * (sig + 1) == sig + 1);
}

/// The sum of two finite numbers that are not zero, given by sign, significand and
/// place value, the first of which has the higher place value.
fn add_parts(
    first_negative: bool,
    first: u64,
    first_exp: i32,
    second_negative: bool,
    second: u64,
    second_exp: i32,
) -> (r: Binary32)
    requires
        0 < first < 0x100_0000,
        0 < second < 0x100_0000,
        0 <= second_exp <= first_exp <= 253,
        first_exp > 0 ==> first >= 0x80_0000,
    ensures
        ({
            let a = first * power2::pow2(first_exp as nat);
            let b = second * power2::pow2(second_exp as nat);
            let total = (if first_negative { -a } else { a }) + (if second_negative {
                -b
            } else {
                b
            });
            r == if total == 0 {
                Binary32::signed(false, 0)
            } else if total < 0 {
                Binary32::signed(true, rounding::round(-total, 1))
            } else {
                Binary32::signed(false, rounding::round(total, 1))
            }
        }),
{
    let apart: i32 = first_exp - second_exp;
    let ghost a = first * power2::pow2(first_exp as nat);
    let ghost b = second * power2::pow2(second_exp as nat);
    let ghost p = power2::pow2(second_exp as nat) as int;
    proof {
        power2::lemma2_to64();
        power2::lemma2_to64_rest();
        power2::lemma_pow2_pos(first_exp as nat);
        power2::lemma_pow2_pos(second_exp as nat);
        mul::lemma_mul_strictly_positive(first as int, power2::pow2(first_exp as nat) as int);
        mul::lemma_mul_strictly_positive(second as int, power2::pow2(second_exp as nat) as int);
    }
    if apart <= 37 {
        let scale: u64 = rounding::power_of_two(apart as u32);
        proof {
            if apart < 37 {
                power2::lemma_pow2_strictly_increases(apart as nat, 37);
            }
            power2::lemma_pow2_adds(apart as nat, second_exp as nat);
            assert(first * scale < 0x100_0000 * 0x20_0000_0000) by (nonlinear_arith)
                requires
                    first < 0x100_0000,
                    0 < scale <= 0x20_0000_0000,
            ;
            assert(first * (scale * p) == (first * scale) * p) by (nonlinear_arith);
            mul::lemma_mul_strictly_positive(first as int, scale as int);
        }
        let wide: u64 = first * scale;
        assert(a == wide * p);
        proof {
            mul::lemma_mul_is_distributive_add_other_way(p, wide as int, second as int);
            mul::lemma_mul_is_distributive_sub_other_way(p, wide as int, second as int);
            mul::lemma_mul_is_distributive_sub_other_way(p, second as int, wide as int);
        }
        if first_negative == second_negative {
            proof {
                lemma_brackets_whole(a + b, wide + second, second_exp as int, false);
            }
            let m: u32 = rounding::round_scaled(
                wide + second,
                second_exp,
                false,
                Ghost(a + b),
                Ghost(1int),
            );
            Binary32::compose(first_negative, m)
        } else if wide > second {
            proof {
                lemma_brackets_whole(a - b, wide - second, second_exp as int, false);
                mul::lemma_mul_strictly_positive(wide - second, p);
            }
            let m: u32 = rounding::round_scaled(
                wide - second,
                second_exp,
                false,
                Ghost(a - b),
                Ghost(1int),
            );
            Binary32::compose(first_negative, m)
        } else if wide < second {
            proof {
                lemma_brackets_whole(b - a, second - wide, second_exp as int, false);
                mul::lemma_mul_strictly_positive(second - wide, p);
            }
            let m: u32 = rounding::round_scaled(
                second - wide,
                second_exp,
                false,
                Ghost(b - a),
                Ghost(1int),
            );
            Binary32::compose(second_negative, m)
        } else {
            Binary32 { bits: 0 }
        }
    } else {
        let exp: i32 = first_exp - 14;
        let wide: u64 = first * 0x4000;
        let ghost unit = power2::pow2(exp as nat) as int;
        proof {
            power2::lemma_pow2_adds(14, exp as nat);
            assert(first * (0x4000 * unit) == (first * 0x4000) * unit) by (nonlinear_arith);
            assert(a == wide * unit);
            power2::lemma_pow2_adds(24, second_exp as nat);
            if second_exp + 24 < exp {
                power2::lemma_pow2_strictly_increases((second_exp + 24) as nat, exp as nat);
            }
            assert(b < 0x100_0000 * p) by (nonlinear_arith)
                requires
                    b == second * p,
                    second < 0x100_0000,
                    p > 0,
            ;
            assert(b < unit);
            mul::lemma_mul_is_distributive_add_other_way(unit, wide as int, 1);
            mul::lemma_mul_is_distributive_sub_other_way(unit, wide as int, 1);
        }
        if first_negative == second_negative {
            proof {
                lemma_brackets_whole(a + b, wide as int, exp as int, true);
            }
            let m: u32 = rounding::round_scaled(wide, exp, true, Ghost(a + b), Ghost(1int));
            Binary32::compose(first_negative, m)
        } else {
            proof {
                lemma_brackets_whole(a - b, wide - 1, exp as int, true);
                assert(a - b > 0) by {
                    mul::lemma_mul_increases(wide as int, unit);
                }
            }
            let m: u32 = rounding::round_scaled(wide - 1, exp, true, Ghost(a - b), Ghost(1int));
            Binary32::compose(first_negative, m)
        }
    }
}

/// A product of two scaled integers, counted in units of 2^-298.
proof fn lemma_brackets_product(a: int, a_exp: int, b: int, b_exp: int)
    requires
        0 <= a_exp,
        0 <= b_exp,
    ensures
        rounding::brackets(
            (a * power2::pow2(a_exp as nat)) * (b * power2::pow2(b_exp as nat)),
            power2::pow2(149) as int,
            a * b,
            a_exp + b_exp - 149,
            false,
        ),
{
    let p = power2::pow2(a_exp as nat) as int;
    let q = power2::pow2(b_exp as nat) as int;
    let exp = a_exp + b_exp - 149;
    let unit = power2::pow2(149) as int;
    let num = (a * p) * (b * q);
    power2::lemma2_to64();
    power2::lemma_pow2_adds(a_exp as nat, b_exp as nat);
    assert(num == (a * b) * (p * q)) by (nonlinear_arith)
        requires
            num == (a * p) * (b * q),
    ;
    if exp < 0 {
        let k = power2::pow2((-exp) as nat) as int;
        power2::lemma_pow2_adds((a_exp + b_exp) as nat, (-exp) as nat);
        assert((a * b) * (p * q) * k == unit * (a * b) * 1) by (nonlinear_arith)
            requires
                (p * q) * k == unit,
        ;
    } else {
        let k = power2::pow2(exp as nat) as int;
        power2::lemma_pow2_adds(149, exp as nat);
        assert((a * b) * (p * q) * 1 == unit * (a * b) * k) by (nonlinear_arith)
            requires
                p * q == unit * k,
        ;
    }
}

/// A quotient of two scaled integers, the first of which was lengthened by `by`
/// places before the division.
proof fn lemma_brackets_quotient(
    a: int,
    a_exp: int,
    b: int,
    b_exp: int,
    by: int,
    sig: int,
    inexact: bool,
)
    requires
        0 <= a_exp,
        0 <= b_exp,
        0 <= by,
        b > 0,
        inexact ==> b * sig < a * power2::pow2(by as nat) < b * (sig + 1),
        !inexact ==> a * power2::pow2(by as nat) == b * sig,
    ensures
        rounding::brackets(
            (a * power2::pow2(a_exp as nat)) * power2::pow2(149),
            b * power2::pow2(b_exp as nat),
            sig,
            a_exp + 149 - b_exp - by,
            inexact,
        ),
{
    let exp = a_exp + 149 - b_exp - by;
    let down = if exp < 0 { -exp } else { 0 };
    let up = if exp < 0 { 0 } else { exp };
    let pa = power2::pow2(a_exp as nat) as int;
    let pb = power2::pow2(b_exp as nat) as int;
    let unit = power2::pow2(149) as int;
    let x = power2::pow2(down as nat) as int;
    let y = power2::pow2(up as nat) as int;
    let k = power2::pow2(by as nat) as int;
    let n = a * k;
    let t = pb * k * y;
    power2::lemma_pow2_pos(b_exp as nat);
    power2::lemma_pow2_pos(by as nat);
    power2::lemma_pow2_pos(up as nat);
    power2::lemma_pow2_adds(a_exp as nat, 149);
    power2::lemma_pow2_adds((a_exp + 149) as nat, down as nat);
    power2::lemma_pow2_adds(b_exp as nat, by as nat);
    power2::lemma_pow2_adds((b_exp + by) as nat, up as nat);
    assert(pa * unit * x == t);
    assert(pb * k > 0) by (nonlinear_arith)
        requires
            pb > 0,
            k > 0,
    ;
    assert(t > 0) by (nonlinear_arith)
        requires
            pb * k > 0,
            y > 0,
            t == pb * k * y,
    ;
    // Scaled by `k`, both sides are multiples of `t`.
    let num = (a * pa) * unit * x;
    let den = b * pb;
    assert(num * k == n * t) by (nonlinear_arith)
        requires
            num == (a * pa) * unit * x,
            n == a * k,
            pa * unit * x == t,
    ;
    assert(den * sig * y * k == (b * sig) * t && den * (sig + 1) * y * k == (b * (sig + 1)) * t)
        by (nonlinear_arith)
        requires
            den == b * pb,
            t == pb * k * y,
    ;
    let low = den * sig * y;
    let high = den * (sig + 1) * y;
    if inexact {
        assert((b * sig) * t < n * t < (b * (sig + 1)) * t) by (nonlinear_arith)
            requires
                b * sig < n < b * (sig + 1),
                t > 0,
        ;
        assert(low < num < high) by (nonlinear_arith)
            requires
                low * k < num * k < high * k,
                k > 0,
        ;
    } else {
        assert(num == low) by (nonlinear_arith)
            requires
                num * k == low * k,
                k > 0,
        ;
    }
}

impl Binary32 {
    /// The sum of two numbers.
    pub fn plus(self, other: Self) -> (r: Self)
        ensures
            r == self.sum(other),
    {
        let a: u32 = self.low_bits();
        let b: u32 = other.low_bits();
        if a > INFINITE || b > INFINITE {
            return Binary32 { bits: 0x7fc0_0000 };
        }
        if a == INFINITE {
            return if b == INFINITE && self.is_negative() != other.is_negative() {
                Binary32 { bits: 0x7fc0_0000 }
            } else {
                self
            };
        }
        if b == INFINITE {
            return other;
        }
        proof {
            rounding::lemma_magnitude_increases(0, a as int);
            rounding::lemma_magnitude_increases(0, b as int);
            rounding::lemma_round_magnitude(a as int);
            rounding::lemma_round_magnitude(b as int);
        }
        if a == 0 {
            return if b == 0 {
                Self::compose(self.is_negative() && other.is_negative(), 0)
            } else {
                other
            };
        }
        if b == 0 {
            return self;
        }
        let (a_sig, a_exp): (u64, i32) = parts(a);
        let (b_sig, b_exp): (u64, i32) = parts(b);
        if a_exp >= b_exp {
            add_parts(self.is_negative(), a_sig, a_exp, other.is_negative(), b_sig, b_exp)
        } else {
            add_parts(other.is_negative(), b_sig, b_exp, self.is_negative(), a_sig, a_exp)
        }
    }

    /// The difference of two numbers.
    pub fn minus(self, other: Self) -> (r: Self)
        ensures
            r == self.difference(other),
    {
        self.plus(other.negated())
    }

    /// The product of two numbers.
    pub fn times(self, other: Self) -> (r: Self)
        ensures
            r == self.product(other),
    {
        let a: u32 = self.low_bits();
        let b: u32 = other.low_bits();
        let negative: bool = self.is_negative() != other.is_negative();
        if a > INFINITE || b > INFINITE {
            return Binary32 { bits: 0x7fc0_0000 };
        }
        if a == INFINITE || b == INFINITE {
            return if a == 0 || b == 0 {
                Binary32 { bits: 0x7fc0_0000 }
            } else {
                Self::compose(negative, INFINITE)
            };
        }
        let ghost num = self.size() * other.size();
        let ghost unit = power2::pow2(149) as int;
        proof {
            power2::lemma_pow2_pos(149);
        }
        if a == 0 || b == 0 {
            proof {
                rounding::lemma_round_zero(unit);
                mul::lemma_mul_basics(self.size());
                mul::lemma_mul_basics(other.size());
            }
            return Self::compose(negative, 0);
        }
        let (a_sig, a_exp): (u64, i32) = parts(a);
        let (b_sig, b_exp): (u64, i32) = parts(b);
        proof {
            lemma_brackets_product(a_sig as int, a_exp as int, b_sig as int, b_exp as int);
            assert(0 < a_sig * b_sig < 0x1_0000_0000_0000) by (nonlinear_arith)
                requires
                    0 < a_sig < 0x100_0000,
                    0 < b_sig < 0x100_0000,
            ;
        }
        let m: u32 = rounding::round_scaled(
            a_sig * b_sig,
            a_exp + b_exp - 149,
            false,
            Ghost(num),
            Ghost(unit),
        );
        Self::compose(negative, m)
    }

    /// The quotient of two numbers.
    pub fn over(self, other: Self) -> (r: Self)
        ensures
            r == self.quotient(other),
    {
        let a: u32 = self.low_bits();
        let b: u32 = other.low_bits();
        let negative: bool = self.is_negative() != other.is_negative();
        if a > INFINITE || b > INFINITE {
            return Binary32 { bits: 0x7fc0_0000 };
        }
        if a == INFINITE {
            return if b == INFINITE {
                Binary32 { bits: 0x7fc0_0000 }
            } else {
                Self::compose(negative, INFINITE)
            };
        }
        if b == INFINITE {
            return Self::compose(negative, 0);
        }
        if b == 0 {
            return if a == 0 {
                Binary32 { bits: 0x7fc0_0000 }
            } else {
                Self::compose(negative, INFINITE)
            };
        }
        let ghost num = self.size() * power2::pow2(149);
        let ghost den = other.size();
        proof {
            rounding::lemma_magnitude_increases(0, b as int);
        }
        if a == 0 {
            proof {
                rounding::lemma_round_zero(den);
                mul::lemma_mul_basics(power2::pow2(149) as int);
            }
            return Self::compose(negative, 0);
        }
        let (a_sig, a_exp): (u64, i32) = parts(a);
        let (b_sig, b_exp): (u64, i32) = parts(b);
        let mut wide: u64 = a_sig;
        let mut by: i32 = 0;
        proof {
            power2::lemma2_to64();
            mul::lemma_mul_basics(a_sig as int);
        }
        while wide < 0x80_0000
            invariant
                0 < a_sig <= wide < 0x100_0000,
                0 <= by <= 23,
                wide == a_sig * power2::pow2(by as nat),
                power2::pow2(by as nat) <= wide,
                power2::pow2(23) == 0x80_0000,
            decreases 0x100_0000 - wide,
        {
            proof {
                power2::lemma_pow2_unfold((by + 1) as nat);
                let p = power2::pow2(by as nat) as int;
                assert(a_sig * (2 * p) == 2 * (a_sig * p)) by (nonlinear_arith);
            }
            wide = 2 * wide;
            by = by + 1;
        }
        let top: u64 = wide * 0x40_0000_0000;
        let sig: u64 = top / b_sig;
        let inexact: bool = top % b_sig != 0;
        proof {
            power2::lemma2_to64_rest();
            power2::lemma_pow2_adds(by as nat, 38);
            let p = power2::pow2(by as nat) as int;
            assert(a_sig * (p * 0x40_0000_0000) == (a_sig * p) * 0x40_0000_0000)
                by (nonlinear_arith);
            div_mod::lemma_fundamental_div_mod(top as int, b_sig as int);
            div_mod::lemma_mod_division_less_than_divisor(top as int, b_sig as int);
            mul::lemma_mul_is_distributive_add(b_sig as int, sig as int, 1);
            assert(sig >= 0x200_0000) by (nonlinear_arith)
                requires
                    sig == top / b_sig,
                    top >= 0x2000_0000_0000_0000,
                    0 < b_sig < 0x100_0000,
            ;
            assert(sig <= top) by {
                div_mod::lemma_div_nonincreasing(top as int, b_sig as int);
            }
            lemma_brackets_quotient(
                a_sig as int,
                a_exp as int,
                b_sig as int,
                b_exp as int,
                by + 38,
                sig as int,
                inexact,
            );
        }
        let m: u32 = rounding::round_scaled(
            sig,
            a_exp + 149 - b_exp - (by + 38),
            inexact,
            Ghost(num),
            Ghost(den),
        );
        Self::compose(negative, m)
    }

    /// The number nearest to a count.
    pub fn from_count(n: usize) -> (r: Self)
        ensures
            r == Self::count(n as int),
    {
        let ghost num = n * power2::pow2(149);
        if n == 0 {
            proof {
                rounding::lemma_round_zero(1);
            }
            return Binary32 { bits: 0 };
        }
        let sig: u64;
        let exp: i32;
        let inexact: bool;
        proof {
            power2::lemma2_to64();
            power2::lemma_pow2_adds(2, 149);
            power2::lemma_pow2_pos(149);
        }
        let whole: u64 = n as u64;
        if whole < 0x4000_0000_0000_0000 {
            sig = whole;
            exp = 149;
            inexact = false;
        } else {
            sig = whole / 4;
            exp = 151;
            inexact = whole % 4 != 0;
            proof {
                let unit = power2::pow2(149) as int;
                assert(sig * (4 * unit) == (4 * sig) * unit && (sig + 1) * (4 * unit) == (4 * (sig
                    + 1)) * unit) by (nonlinear_arith);
                if inexact {
                    assert((4 * sig) * unit < n * unit < (4 * (sig + 1)) * unit)
                        by (nonlinear_arith)
                        requires
                            unit > 0,
                            4 * sig < n < 4 * (sig + 1),
                    ;
                }
            }
        }
        proof {
            lemma_brackets_whole(num, sig as int, exp as int, inexact);
        }
        let m: u32 = rounding::round_scaled(sig, exp, inexact, Ghost(num), Ghost(1int));
        Self::compose(false, m)
    }
}

}
