//! Rounding of exact quotients to the nearest binary32 magnitude.
//!
//! A binary32 magnitude is the number that its low 31 bits spell. Read as an
//! integer, those bits order the magnitudes, and every finite magnitude is a
//! whole multiple of the smallest one, 2 to the power of -149. That smallest
//! magnitude is the unit in which this module counts.

use vstd::arithmetic::div_mod;
use vstd::arithmetic::mul;
use vstd::arithmetic::power2;
use vstd::prelude::*;

verus! {

/// The bits of the infinite magnitude. Every finite magnitude lies below them.
pub const INFINITE: u32 = 0x7f80_0000;

/// What the magnitude with the bits `m` is worth, in units of 2^-149.
///
/// The infinite magnitude counts as the power of two that would follow the
/// largest finite magnitude, which is where rounding to it starts from.
pub open spec fn magnitude(m: int) -> int {
    let exponent = m / 0x80_0000;
    let fraction = m % 0x80_0000;
    if exponent == 0 {
        fraction
    } else {
        (0x80_0000 + fraction) * power2::pow2((exponent - 1) as nat)
    }
}

/// Whether `m` are the bits of the magnitude nearest to `num / den`, where a tie
/// goes to the even bits.
pub open spec fn nearest(num: int, den: int, m: int) -> bool {
    &&& 0 <= m <= INFINITE
    &&& m > 0 ==> {
        let below = den * (magnitude(m - 1) + magnitude(m));
        below < 2 * num || (below == 2 * num && m % 2 == 0)
    }
    &&& m < INFINITE ==> {
        let above = den * (magnitude(m) + magnitude(m + 1));
        2 * num < above || (above == 2 * num && m % 2 == 0)
    }
}

/// The bits of the magnitude nearest to `num / den`, ties to even.
pub open spec fn round(num: int, den: int) -> int {
    choose|m: int| nearest(num, den, m)
}

/// A magnitude whose significand is `q` and whose last place is worth `2^u`.
pub proof fn lemma_magnitude(u: int, q: int)
    requires
        0 <= u,
        0 <= q <= 0x100_0000,
        u > 0 ==> 0x80_0000 <= q,
    ensures
        magnitude(u * 0x80_0000 + q) == q * power2::pow2(u as nat),
{
    let m = u * 0x80_0000 + q;
    if q < 0x80_0000 {
        assert(u == 0);
        assert(power2::pow2(0) == 1) by {
            power2::lemma2_to64();
        }
    } else if q < 0x100_0000 {
        assert(m / 0x80_0000 == u + 1 && m % 0x80_0000 == q - 0x80_0000);
    } else {
        assert(m / 0x80_0000 == u + 2 && m % 0x80_0000 == 0);
        power2::lemma_pow2_unfold((u + 1) as nat);
        assert(0x80_0000 * (2 * power2::pow2(u as nat)) == 0x100_0000 * power2::pow2(u as nat));
    }
}

/// Each magnitude is worth less than the next one.
proof fn lemma_magnitude_step(m: int)
    requires
        0 <= m,
    ensures
        0 <= magnitude(m) < magnitude(m + 1),
{
    let exponent = m / 0x80_0000;
    let fraction = m % 0x80_0000;
    let u = if exponent == 0 { 0 } else { exponent - 1 };
    let q = if exponent == 0 { fraction } else { 0x80_0000 + fraction };
    assert(m == u * 0x80_0000 + q);
    lemma_magnitude(u, q);
    lemma_magnitude(u, q + 1);
    power2::lemma_pow2_pos(u as nat);
    let p = power2::pow2(u as nat) as int;
    assert(0 <= q * p < (q + 1) * p) by (nonlinear_arith)
        requires
            p > 0,
            q >= 0,
    ;
}

/// Magnitudes are worth more the larger their bits are.
pub proof fn lemma_magnitude_increases(a: int, b: int)
    requires
        0 <= a <= b,
    ensures
        0 <= magnitude(a) <= magnitude(b),
        a < b ==> magnitude(a) < magnitude(b),
    decreases b - a,
{
    lemma_magnitude_step(a);
    if a < b {
        lemma_magnitude_increases(a + 1, b);
    }
}

/// At most one magnitude is nearest.
proof fn lemma_nearest_unique(num: int, den: int, a: int, b: int)
    requires
        den > 0,
        nearest(num, den, a),
        nearest(num, den, b),
    ensures
        a == b,
{
    if a < b {
        lemma_nearest_not_both(num, den, a, b);
    } else if b < a {
        lemma_nearest_not_both(num, den, b, a);
    }
}

proof fn lemma_nearest_not_both(num: int, den: int, a: int, b: int)
    requires
        den > 0,
        a < b,
        nearest(num, den, a),
    ensures
        !nearest(num, den, b),
{
    lemma_magnitude_increases(a, b - 1);
    lemma_magnitude_increases(a + 1, b);
    let low = magnitude(a) + magnitude(a + 1);
    let high = magnitude(b - 1) + magnitude(b);
    if a + 1 < b {
        assert(den * low < den * high) by (nonlinear_arith)
            requires
                den > 0,
                low < high,
        ;
    }
}

/// Rounding finds the magnitude that is nearest.
pub proof fn lemma_round(num: int, den: int, m: int)
    requires
        den > 0,
        nearest(num, den, m),
    ensures
        round(num, den) == m,
{
    lemma_nearest_unique(num, den, round(num, den), m);
}

/// How the quotient `num / den` lies to the scaled integer `sig * 2^exp`: equal to
/// it or, where `inexact`, strictly between it and `(sig + 1) * 2^exp`.
pub open spec fn brackets(num: int, den: int, sig: int, exp: int, inexact: bool) -> bool {
    let a = power2::pow2((if exp < 0 { -exp } else { 0 }) as nat) as int;
    let b = power2::pow2((if exp < 0 { 0 } else { exp }) as nat) as int;
    if inexact {
        den * sig * b < num * a < den * (sig + 1) * b
    } else {
        num * a == den * sig * b
    }
}

/// A quotient between the significands `q` and `q + 1`, whose last place is worth
/// `2^u`, rounds down to `q` unless it lies beyond their middle.
proof fn lemma_nearest_down(num: int, den: int, u: int, q: int)
    requires
        den > 0,
        0 <= u,
        0 <= q < 0x100_0000,
        u > 0 ==> 0x80_0000 <= q,
        u * 0x80_0000 + q < INFINITE,
        den * (q * power2::pow2(u as nat)) <= num,
        2 * num <= den * ((2 * q + 1) * power2::pow2(u as nat)),
        2 * num == den * ((2 * q + 1) * power2::pow2(u as nat)) ==> q % 2 == 0,
    ensures
        nearest(num, den, u * 0x80_0000 + q),
{
    let m = u * 0x80_0000 + q;
    let p = power2::pow2(u as nat) as int;
    lemma_magnitude(u, q);
    lemma_magnitude(u, q + 1);
    assert(q * p + (q + 1) * p == (2 * q + 1) * p) by (nonlinear_arith);
    assert(m % 2 == q % 2);
    if m > 0 {
        lemma_magnitude_increases(m - 1, m);
        let w = magnitude(m - 1);
        let v = magnitude(m);
        assert(den * (w + v) < den * v + den * v) by (nonlinear_arith)
            requires
                den > 0,
                w < v,
        ;
    }
}

/// A quotient between the significands `q` and `q + 1`, whose last place is worth
/// `2^u`, rounds up to `q + 1` unless it lies before their middle.
proof fn lemma_nearest_up(num: int, den: int, u: int, q: int)
    requires
        den > 0,
        0 <= u,
        0 <= q < 0x100_0000,
        u > 0 ==> 0x80_0000 <= q,
        u * 0x80_0000 + q < INFINITE,
        num < den * ((q + 1) * power2::pow2(u as nat)),
        2 * num >= den * ((2 * q + 1) * power2::pow2(u as nat)),
        2 * num == den * ((2 * q + 1) * power2::pow2(u as nat)) ==> q % 2 == 1,
    ensures
        nearest(num, den, u * 0x80_0000 + q + 1),
{
    let m = u * 0x80_0000 + q + 1;
    let p = power2::pow2(u as nat) as int;
    lemma_magnitude(u, q);
    lemma_magnitude(u, q + 1);
    assert(q * p + (q + 1) * p == (2 * q + 1) * p) by (nonlinear_arith);
    assert(m % 2 == (q + 1) % 2);
    if m < INFINITE {
        lemma_magnitude_increases(m, m + 1);
        let w = magnitude(m + 1);
        let v = magnitude(m);
        assert(den * (w + v) > den * v + den * v) by (nonlinear_arith)
            requires
                den > 0,
                v < w,
        ;
    }
}

/// A quotient that reaches the infinite magnitude rounds to it.
proof fn lemma_nearest_infinite(num: int, den: int)
    requires
        den > 0,
        num >= den * magnitude(INFINITE as int),
    ensures
        nearest(num, den, INFINITE as int),
{
    lemma_magnitude_increases(INFINITE - 1, INFINITE as int);
    let w = magnitude(INFINITE - 1);
    let v = magnitude(INFINITE as int);
    assert(den * (w + v) < den * v + den * v) by (nonlinear_arith)
        requires
            den > 0,
            w < v,
    ;
}

/// What cutting `shift` places off a significand leaves of its quotient.
proof fn lemma_cut(num: int, den: int, sig: int, exp: int, inexact: bool, shift: int, u: int)
    requires
        den > 0,
        sig >= 0,
        shift > 0,
        u >= 0,
        u == exp + shift,
        brackets(num, den, sig, exp, inexact),
    ensures
        ({
            let cut = power2::pow2(shift as nat) as int;
            let q = sig / cut;
            let rest = sig % cut;
            let p = power2::pow2(u as nat);
            let middle = den * ((2 * q + 1) * p);
            &&& den * (q * p) <= num < den * ((q + 1) * p)
            &&& 2 * rest < cut ==> 2 * num < middle
            &&& 2 * rest > cut ==> 2 * num > middle
            &&& 2 * rest == cut && inexact ==> 2 * num > middle
            &&& 2 * rest == cut && !inexact ==> 2 * num == middle
        }),
{
    let cut = power2::pow2(shift as nat) as int;
    let q = sig / cut;
    let rest = sig % cut;
    let p = power2::pow2(u as nat) as int;
    let a = power2::pow2((if exp < 0 { -exp } else { 0 }) as nat) as int;
    let b = power2::pow2((if exp < 0 { 0 } else { exp }) as nat) as int;
    power2::lemma_pow2_pos(shift as nat);
    power2::lemma_pow2_pos((if exp < 0 { -exp } else { 0 }) as nat);
    power2::lemma_pow2_pos((if exp < 0 { 0 } else { exp }) as nat);
    power2::lemma_pow2_unfold(shift as nat);
    div_mod::lemma_fundamental_div_mod(sig, cut);
    div_mod::lemma_mod_division_less_than_divisor(sig, cut);
    assert(p * a == cut * b) by {
        assert(power2::pow2(0) == 1) by {
            power2::lemma2_to64();
        }
        if exp < 0 {
            power2::lemma_pow2_adds(u as nat, (-exp) as nat);
        } else {
            power2::lemma_pow2_adds(shift as nat, exp as nat);
        }
    }
    let h = power2::pow2((shift - 1) as nat) as int;
    assert(cut == 2 * h);
    // Everything is compared after scaling by `a`, where `p` becomes `cut * b`.
    let s = den * sig * b;
    assert(den * (q * p) * a == den * (q * cut) * b) by (nonlinear_arith)
        requires
            p * a == cut * b,
    ;
    assert(den * ((q + 1) * p) * a == den * ((q + 1) * cut) * b) by (nonlinear_arith)
        requires
            p * a == cut * b,
    ;
    assert(den * ((2 * q + 1) * p) * a == den * ((2 * q + 1) * cut) * b) by (nonlinear_arith)
        requires
            p * a == cut * b,
    ;
    let db = den * b;
    assert(db > 0) by (nonlinear_arith)
        requires
            db == den * b,
            den > 0,
            b > 0,
    ;
    assert(den * sig * b == db * sig && den * (sig + 1) * b == db * (sig + 1)
        && den * (q * cut) * b == db * (q * cut) && den * ((q + 1) * cut) * b == db * ((q + 1)
        * cut) && den * ((2 * q + 1) * cut) * b == db * ((2 * q + 1) * cut)) by (nonlinear_arith)
        requires
            db == den * b,
    ;
    assert((q + 1) * cut == q * cut + cut && (2 * q + 1) * cut == 2 * (q * cut) + cut)
        by (nonlinear_arith);
    let qc = q * cut;
    assert(cut * q == qc) by {
        mul::lemma_mul_is_commutative(cut, q);
    }
    assert(sig == qc + rest);
    // The scaled quotient lies from `db * sig` on and before `db * (sig + 1)`.
    assert(db * (sig + 1) == db * sig + db) by (nonlinear_arith);
    let na = num * a;
    assert(db * sig <= na < db * sig + db);
    assert(db * qc <= db * sig) by (nonlinear_arith)
        requires
            db > 0,
            qc <= sig,
    ;
    assert(db * sig + db <= db * (qc + cut)) by (nonlinear_arith)
        requires
            db > 0,
            sig + 1 <= qc + cut,
    ;
    let mid = 2 * qc + cut;
    if 2 * rest < cut {
        assert(2 * (db * sig + db) <= db * mid) by (nonlinear_arith)
            requires
                db > 0,
                2 * (sig + 1) <= mid,
        ;
    } else {
        assert(2 * (db * sig) >= db * mid) by (nonlinear_arith)
            requires
                db > 0,
                2 * sig >= mid,
        ;
        if 2 * rest > cut {
            assert(2 * (db * sig) > db * mid) by (nonlinear_arith)
                requires
                    db > 0,
                    2 * sig > mid,
            ;
        } else {
            assert(2 * (db * sig) == db * mid) by (nonlinear_arith)
                requires
                    2 * sig == mid,
            ;
        }
    }
    // And `a` cancels.
    let low = den * (q * p);
    let high = den * ((q + 1) * p);
    let middle = den * ((2 * q + 1) * p);
    assert(low <= num) by (nonlinear_arith)
        requires
            a > 0,
            low * a <= num * a,
    ;
    assert(num < high) by (nonlinear_arith)
        requires
            a > 0,
            num * a < high * a,
    ;
    assert((2 * na < middle * a ==> 2 * num < middle) && (2 * na > middle * a ==> 2 * num > middle)
        && (2 * na == middle * a ==> 2 * num == middle)) by (nonlinear_arith)
        requires
            a > 0,
            na == num * a,
    ;
}

/// A quotient that a scaled integer of at most 24 places hits exactly.
proof fn lemma_exact(num: int, den: int, sig: int, exp: int, shift: int, u: int)
    requires
        den > 0,
        0 <= shift,
        0 <= u,
        exp == u + shift,
        brackets(num, den, sig, exp, false),
    ensures
        num == den * ((sig * power2::pow2(shift as nat)) * power2::pow2(u as nat)),
{
    power2::lemma2_to64();
    power2::lemma_pow2_adds(shift as nat, u as nat);
    let k = power2::pow2(shift as nat) as int;
    let p = power2::pow2(u as nat) as int;
    assert(den * sig * (k * p) == den * ((sig * k) * p)) by (nonlinear_arith);
    assert(power2::pow2(exp as nat) == k * p);
    assert(num * power2::pow2(0) == num);
}

/// Two to the power of `k`.
pub fn power_of_two(k: u32) -> (r: u64)
    requires
        k < 64,
    ensures
        r == power2::pow2(k as nat),
{
    let mut r: u64 = 1;
    let mut i: u32 = 0;
    proof {
        power2::lemma2_to64();
    }
    while i < k
        invariant
            i <= k < 64,
            r == power2::pow2(i as nat),
        decreases k - i,
    {
        proof {
            power2::lemma_pow2_unfold((i + 1) as nat);
            power2::lemma_pow2_strictly_increases((i + 1) as nat, 64);
            power2::lemma2_to64();
        }
        r = 2 * r;
        i = i + 1;
    }
    r
}

/// The number of binary places of `sig`.
fn places(sig: u64) -> (len: u32)
    requires
        0 < sig < 0x4000_0000_0000_0000,
    ensures
        1 <= len <= 62,
        power2::pow2((len - 1) as nat) <= sig < power2::pow2(len as nat),
{
    let mut len: u32 = 0;
    let mut bound: u64 = 1;
    proof {
        power2::lemma2_to64();
        power2::lemma2_to64_rest();
    }
    while bound <= sig
        invariant
            0 < sig < 0x4000_0000_0000_0000,
            len <= 62,
            bound == power2::pow2(len as nat),
            bound <= 0x4000_0000_0000_0000,
            power2::pow2(62) == 0x4000_0000_0000_0000,
            len > 0 ==> power2::pow2((len - 1) as nat) <= sig,
        decreases 62 - len,
    {
        proof {
            power2::lemma_pow2_unfold((len + 1) as nat);
            if len >= 62 {
                assert(bound == 0x4000_0000_0000_0000);
            } else if len + 1 < 62 {
                power2::lemma_pow2_strictly_increases((len + 1) as nat, 62);
            }
        }
        bound = 2 * bound;
        len = len + 1;
    }
    len
}

/// Rounds the quotient that `sig`, `exp` and `inexact` bracket. An inexact
/// significand has two places more than a magnitude holds, or further ones.
pub fn round_scaled(
    sig: u64,
    exp: i32,
    inexact: bool,
    Ghost(num): Ghost<int>,
    Ghost(den): Ghost<int>,
) -> (m: u32)
    requires
        den > 0,
        0 < sig < 0x4000_0000_0000_0000,
        -1000 <= exp <= 1000,
        inexact ==> sig >= 0x200_0000,
        brackets(num, den, sig as int, exp as int, inexact),
    ensures
        nearest(num, den, m as int),
        m == round(num, den),
{
    let len: i32 = places(sig) as i32;
    let place: i32 = len - 24 + exp;
    let u: i32 = if place > 0 {
        place
    } else {
        0
    };
    let shift: i32 = u - exp;
    let m: u32;
    proof {
        power2::lemma2_to64();
        power2::lemma2_to64_rest();
        lemma_magnitude(254, 0x80_0000);
        if len > 25 {
            power2::lemma_pow2_strictly_increases(25, len as nat);
        } else if len < 25 {
            power2::lemma_pow2_strictly_increases(len as nat, 25);
        }
    }
    if shift <= 0 {
        let by: u32 = (-shift) as u32;
        assert(!inexact);
        assert(by <= 24 - len);
        proof {
            lemma_significand_scaled(sig as int, len as int, by as int);
            lemma_exact(num, den, sig as int, exp as int, by as int, u as int);
        }
        let q: u64 = sig * power_of_two(by);
        if u >= 254 {
            m = INFINITE;
            proof {
                lemma_at_least_infinite(num, den, u as int, q as int);
                lemma_nearest_infinite(num, den);
            }
        } else {
            m = u as u32 * 0x80_0000 + q as u32;
            proof {
                let p = power2::pow2(u as nat) as int;
                power2::lemma_pow2_pos(u as nat);
                assert(2 * (den * (q * p)) < den * ((2 * q + 1) * p)) by (nonlinear_arith)
                    requires
                        den > 0,
                        p > 0,
                ;
                lemma_nearest_down(num, den, u as int, q as int);
            }
        }
    } else if shift > 63 {
        m = 0;
        assert(u == 0);
        proof {
            let cut = power2::pow2(shift as nat) as int;
            if shift > 64 {
                power2::lemma_pow2_strictly_increases(64, shift as nat);
            }
            div_mod::lemma_small_mod(sig as nat, cut as nat);
            div_mod::lemma_basic_div(sig as int, cut);
            lemma_cut(num, den, sig as int, exp as int, inexact, shift as int, 0);
            lemma_nearest_down(num, den, 0, 0);
        }
    } else {
        let cut: u64 = power_of_two(shift as u32);
        let q: u64 = sig / cut;
        let rest: u64 = sig % cut;
        proof {
            lemma_significand_cut(sig as int, len as int, shift as int, u > 0);
            lemma_cut(num, den, sig as int, exp as int, inexact, shift as int, u as int);
        }
        if u >= 254 {
            m = INFINITE;
            proof {
                lemma_at_least_infinite(num, den, u as int, q as int);
                lemma_nearest_infinite(num, den);
            }
        } else {
            let up: bool = rest > cut - rest || (rest == cut - rest && (inexact || q % 2 == 1));
            if up {
                m = u as u32 * 0x80_0000 + q as u32 + 1;
                proof {
                    lemma_nearest_up(num, den, u as int, q as int);
                }
            } else {
                m = u as u32 * 0x80_0000 + q as u32;
                proof {
                    lemma_nearest_down(num, den, u as int, q as int);
                }
            }
        }
    }
    proof {
        lemma_round(num, den, m as int);
    }
    m
}

/// Lengthening a significand of `len` places by no more than it lacks of 24.
proof fn lemma_significand_scaled(sig: int, len: int, by: int)
    requires
        1 <= len,
        0 <= by <= 24 - len,
        power2::pow2((len - 1) as nat) <= sig < power2::pow2(len as nat),
    ensures
        0 < sig * power2::pow2(by as nat) < 0x100_0000,
        by == 24 - len ==> 0x80_0000 <= sig * power2::pow2(by as nat),
{
    power2::lemma2_to64();
    let k = power2::pow2(by as nat) as int;
    let top = power2::pow2(len as nat) as int;
    let bottom = power2::pow2((len - 1) as nat) as int;
    power2::lemma_pow2_pos(by as nat);
    power2::lemma_pow2_pos((len - 1) as nat);
    power2::lemma_pow2_adds(len as nat, by as nat);
    power2::lemma_pow2_adds((len - 1) as nat, by as nat);
    if len + by < 24 {
        power2::lemma_pow2_strictly_increases((len + by) as nat, 24);
    }
    assert(bottom * k <= sig * k < top * k) by (nonlinear_arith)
        requires
            k > 0,
            bottom <= sig < top,
    ;
    assert(bottom * k > 0) by (nonlinear_arith)
        requires
            k > 0,
            bottom > 0,
    ;
}

/// Cutting a significand of `len` places down to 24 or fewer.
proof fn lemma_significand_cut(sig: int, len: int, shift: int, full: bool)
    requires
        1 <= len,
        0 < shift,
        shift >= len - 24,
        full ==> shift == len - 24,
        power2::pow2((len - 1) as nat) <= sig < power2::pow2(len as nat),
    ensures
        0 <= sig / (power2::pow2(shift as nat) as int) < 0x100_0000,
        full ==> 0x80_0000 <= sig / (power2::pow2(shift as nat) as int),
{
    power2::lemma2_to64();
    let cut = power2::pow2(shift as nat) as int;
    let q = sig / cut;
    power2::lemma_pow2_pos(shift as nat);
    power2::lemma_pow2_adds(shift as nat, 24);
    if len < shift + 24 {
        power2::lemma_pow2_strictly_increases(len as nat, (shift + 24) as nat);
    }
    assert(sig < cut * 0x100_0000);
    assert(0 <= q < 0x100_0000) by (nonlinear_arith)
        requires
            q == sig / cut,
            0 <= sig < cut * 0x100_0000,
            cut > 0,
    ;
    if full {
        power2::lemma_pow2_adds(shift as nat, 23);
        assert(q >= 0x80_0000) by (nonlinear_arith)
            requires
                q == sig / cut,
                sig >= cut * 0x80_0000,
                cut > 0,
        ;
    }
}

/// A full significand whose last place is worth `2^254` or more is infinite.
proof fn lemma_at_least_infinite(num: int, den: int, u: int, q: int)
    requires
        den > 0,
        u >= 254,
        q >= 0x80_0000,
        num >= den * (q * power2::pow2(u as nat)),
    ensures
        num >= den * magnitude(INFINITE as int),
{
    lemma_magnitude(254, 0x80_0000);
    if u > 254 {
        power2::lemma_pow2_strictly_increases(254, u as nat);
    }
    let p = power2::pow2(u as nat) as int;
    let p0 = power2::pow2(254) as int;
    power2::lemma_pow2_pos(254);
    assert(den * (q * p) >= den * (0x80_0000 * p0)) by (nonlinear_arith)
        requires
            den > 0,
            q >= 0x80_0000,
            p >= p0,
            p0 > 0,
    ;
}

/// The last magnitude from `m` on that does not exceed a quotient.
proof fn floor_from(num: int, den: int, m: int) -> (r: int)
    requires
        0 <= m <= INFINITE,
        den * magnitude(m) <= num,
    ensures
        m <= r <= INFINITE,
        den * magnitude(r) <= num,
        r < INFINITE ==> num < den * magnitude(r + 1),
    decreases INFINITE - m,
{
    if m == INFINITE || num < den * magnitude(m + 1) {
        m
    } else {
        floor_from(num, den, m + 1)
    }
}

/// Every quotient has a nearest magnitude, which rounding finds.
pub proof fn lemma_round_nearest(num: int, den: int)
    requires
        num >= 0,
        den > 0,
    ensures
        nearest(num, den, round(num, den)),
{
    assert(den * magnitude(0) == 0) by {
        mul::lemma_mul_basics(den);
    }
    let m = floor_from(num, den, 0);
    if m == INFINITE {
        lemma_nearest_infinite(num, den);
    } else {
        let v = magnitude(m);
        let w = magnitude(m + 1);
        lemma_magnitude_step(m);
        assert(den * (v + w) == den * v + den * w) by (nonlinear_arith);
        if 2 * num < den * (v + w) || (2 * num == den * (v + w) && m % 2 == 0) {
            if m > 0 {
                lemma_magnitude_step(m - 1);
                let below = magnitude(m - 1);
                assert(den * (below + v) < den * v + den * v) by (nonlinear_arith)
                    requires
                        den > 0,
                        below < v,
                ;
            }
            assert(nearest(num, den, m));
        } else {
            if m + 1 < INFINITE {
                lemma_magnitude_step(m + 1);
                let above = magnitude(m + 2);
                assert(den * (w + above) > den * w + den * w) by (nonlinear_arith)
                    requires
                        den > 0,
                        w < above,
                ;
            }
            assert(nearest(num, den, m + 1));
        }
    }
}

/// A larger quotient rounds to no smaller magnitude.
pub proof fn lemma_round_increases(a: int, b: int, den: int)
    requires
        0 <= a <= b,
        den > 0,
    ensures
        round(a, den) <= round(b, den),
{
    let m = round(a, den);
    let k = round(b, den);
    lemma_round_nearest(a, den);
    lemma_round_nearest(b, den);
    if k < m {
        lemma_magnitude_increases(k, m - 1);
        lemma_magnitude_increases(k + 1, m);
        let high = magnitude(m - 1) + magnitude(m);
        let low = magnitude(k) + magnitude(k + 1);
        assert(den * low <= den * high) by (nonlinear_arith)
            requires
                den > 0,
                low <= high,
        ;
    }
}

/// Magnitudes round to themselves.
pub proof fn lemma_round_magnitude(m: int)
    requires
        0 <= m <= INFINITE,
    ensures
        round(magnitude(m), 1) == m,
{
    if m < INFINITE {
        lemma_magnitude_step(m);
    }
    if m > 0 {
        lemma_magnitude_step(m - 1);
    }
    lemma_round(magnitude(m), 1, m);
}

/// Zero rounds to zero.
pub proof fn lemma_round_zero(den: int)
    requires
        den > 0,
    ensures
        round(0, den) == 0,
{
    lemma_magnitude_step(0);
    let w = magnitude(1);
    assert(den * (0 + w) > 0) by (nonlinear_arith)
        requires
            den > 0,
            w > 0,
    ;
    lemma_round(0, den, 0);
}

/// How much more the next magnitude is worth.
pub open spec fn gap(m: int) -> int {
    magnitude(m + 1) - magnitude(m)
}

/// The place value of a magnitude's last digit.
spec fn place(m: int) -> nat {
    if m < 0x80_0000 {
        0
    } else {
        (m / 0x80_0000 - 1) as nat
    }
}

/// The next magnitude is one more in the last digit. A magnitude has at most 24
/// digits, and as many unless it is one of the smallest.
pub proof fn lemma_gap(m: int)
    requires
        0 <= m,
    ensures
        1 <= gap(m),
        0x80_0000 * (gap(m) - 1) <= magnitude(m) < 0x100_0000 * gap(m),
{
    lemma_gap_is_place_value(m);
    let u = place(m) as int;
    let q = m - u * 0x80_0000;
    let p = power2::pow2(u as nat) as int;
    lemma_magnitude(u, q);
    power2::lemma_pow2_pos(u as nat);
    assert(power2::pow2(0) == 1) by {
        power2::lemma2_to64();
    }
    assert(q * p < 0x100_0000 * p) by (nonlinear_arith)
        requires
            q < 0x100_0000,
            p > 0,
    ;
    if u > 0 {
        assert(0x80_0000 * p <= q * p) by (nonlinear_arith)
            requires
                0x80_0000 <= q,
                p > 0,
        ;
    }
}

proof fn lemma_gap_is_place_value(m: int)
    requires
        0 <= m,
    ensures
        gap(m) == power2::pow2(place(m)),
        0 <= m - place(m) * 0x80_0000 < 0x100_0000,
        place(m) > 0 ==> 0x80_0000 <= m - place(m) * 0x80_0000,
{
    let u = place(m) as int;
    let q = m - u * 0x80_0000;
    lemma_magnitude(u, q);
    lemma_magnitude(u, q + 1);
    let p = power2::pow2(u as nat) as int;
    assert((q + 1) * p - q * p == p) by (nonlinear_arith);
}

/// Gaps do not shrink towards larger magnitudes, and no more than double over a few.
pub proof fn lemma_gap_increases(a: int, b: int)
    requires
        0 <= a <= b,
    ensures
        gap(a) <= gap(b),
        b <= a + 0x80_0000 ==> gap(b) <= 2 * gap(a),
{
    lemma_gap_is_place_value(a);
    lemma_gap_is_place_value(b);
    if place(a) < place(b) {
        power2::lemma_pow2_strictly_increases(place(a), place(b));
    }
    power2::lemma_pow2_unfold(place(a) + 1);
}

/// The magnitude below the one that a quotient rounds to does not exceed the quotient.
pub proof fn lemma_round_below(num: int, den: int)
    requires
        num >= 0,
        den > 0,
    ensures
        0 <= round(num, den) <= INFINITE,
        round(num, den) > 0 ==> den * magnitude(round(num, den) - 1) <= num,
{
    let m = round(num, den);
    lemma_round_nearest(num, den);
    if m > 0 {
        lemma_magnitude_step(m - 1);
        let w = magnitude(m - 1);
        let v = magnitude(m);
        assert(den * w + den * w <= den * (w + v)) by (nonlinear_arith)
            requires
                den > 0,
                w < v,
        ;
    }
}

/// The magnitude above the finite one that a quotient rounds to is not exceeded by the
/// quotient.
pub proof fn lemma_round_above(num: int, den: int)
    requires
        num >= 0,
        den > 0,
        round(num, den) < INFINITE,
    ensures
        num <= den * magnitude(round(num, den) + 1),
{
    let m = round(num, den);
    lemma_round_nearest(num, den);
    lemma_magnitude_step(m);
    let w = magnitude(m + 1);
    let v = magnitude(m);
    assert(den * (v + w) <= den * w + den * w) by (nonlinear_arith)
        requires
            den > 0,
            v < w,
    ;
}

/// What is less than half of the smallest magnitude rounds to zero.
pub proof fn lemma_round_to_zero(num: int, den: int)
    requires
        0 <= 2 * num < den,
    ensures
        round(num, den) == 0,
{
    lemma_magnitude(0, 1);
    assert(power2::pow2(0) == 1) by {
        power2::lemma2_to64();
    }
    assert(magnitude(0) == 0 && magnitude(1) == 1);
    assert(nearest(num, den, 0));
    lemma_round(num, den, 0);
}

/// Twice a magnitude with all its digits, and twice its gap.
pub proof fn lemma_doubled(m: int)
    requires
        0x80_0000 <= m,
    ensures
        magnitude(m + 0x80_0000) == 2 * magnitude(m),
        gap(m + 0x80_0000) == 2 * gap(m),
{
    let e = m / 0x80_0000;
    let f = m % 0x80_0000;
    let p = power2::pow2((e - 1) as nat) as int;
    assert((m + 0x80_0000) / 0x80_0000 == e + 1 && (m + 0x80_0000) % 0x80_0000 == f);
    power2::lemma_pow2_unfold(e as nat);
    assert((0x80_0000 + f) * (2 * p) == 2 * ((0x80_0000 + f) * p)) by (nonlinear_arith);
    lemma_gap_is_place_value(m);
    lemma_gap_is_place_value(m + 0x80_0000);
}

/// A quotient that does not exceed a magnitude rounds to no larger one.
pub proof fn lemma_round_at_most(num: int, den: int, m: int)
    requires
        0 <= num <= den * magnitude(m),
        den > 0,
        0 <= m,
    ensures
        0 <= round(num, den) <= INFINITE,
        round(num, den) <= m,
{
    let k = round(num, den);
    lemma_round_nearest(num, den);
    if m < k {
        lemma_magnitude_increases(m, k - 1);
        lemma_magnitude_step(k - 1);
        let low = magnitude(m);
        let below = magnitude(k - 1);
        let v = magnitude(k);
        assert(2 * (den * low) < den * (below + v)) by (nonlinear_arith)
            requires
                den > 0,
                low <= below < v,
        ;
    }
}

/// The magnitude that is worth `m` times a power of two, where `m` has 24 digits at
/// most.
pub proof fn lemma_whole_magnitude(m: int, u: int) -> (bits: int)
    requires
        1 <= m <= 0x100_0000,
        0x100_0000 <= m * power2::pow2((u + 1) as nat),
        0 <= u < 200,
    ensures
        0 <= bits < INFINITE,
        magnitude(bits) == m * power2::pow2(u as nat),
    decreases u,
{
    if 0x80_0000 <= m {
        lemma_magnitude(u, m);
        u * 0x80_0000 + m
    } else {
        let p = power2::pow2(u as nat) as int;
        power2::lemma_pow2_unfold((u + 1) as nat);
        assert(m * (2 * p) == (2 * m) * p) by (nonlinear_arith);
        if u == 0 {
            power2::lemma2_to64();
        }
        power2::lemma_pow2_unfold(u as nat);
        let h = power2::pow2((u - 1) as nat) as int;
        assert(m * (2 * h) == (2 * m) * h) by (nonlinear_arith);
        lemma_whole_magnitude(2 * m, u - 1)
    }
}

}
