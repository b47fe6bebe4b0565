//! How far rounding moves the sum of column widths.

use vstd::arithmetic::mul;
use vstd::arithmetic::power2;
use vstd::prelude::*;

use crate::binary32::Binary32;
use crate::distribute;
use crate::number;
use crate::number::Number;
use crate::rounded;
use crate::rounding;
use crate::rounding::INFINITE;

verus! {

/// The sum of integers.
pub open spec fn whole(s: Seq<int>) -> int
    decreases s.len(),
{
    if s.len() == 0 {
        0
    } else {
        whole(s.drop_last()) + s.last()
    }
}

/// What finite numbers are worth, in units of 2^-149.
pub open spec fn values(s: Seq<Binary32>) -> Seq<int> {
    Seq::new(s.len(), |i: int| s[i].value())
}

/// The sum of finite numbers without rounding, in units of 2^-149.
pub open spec fn exact_total(s: Seq<Binary32>) -> int {
    whole(values(s))
}

/// Whether two integers differ by `e` at most.
pub open spec fn close(a: int, b: int, e: int) -> bool {
    a - b <= e && b - a <= e
}

/// Sums of items that are close to each other.
pub proof fn lemma_whole_close(a: Seq<int>, b: Seq<int>, e: int)
    requires
        a.len() == b.len(),
        forall|i: int| 0 <= i < a.len() ==> close(#[trigger] a[i], b[i], e),
    ensures
        close(whole(a), whole(b), a.len() * e),
    decreases a.len(),
{
    if a.len() > 0 {
        assert forall|i: int| 0 <= i < a.drop_last().len() implies close(
            #[trigger] a.drop_last()[i],
            b.drop_last()[i],
            e,
        ) by {
            assert(close(a[i], b[i], e));
        }
        lemma_whole_close(a.drop_last(), b.drop_last(), e);
        let k = a.drop_last().len();
        assert(close(a[a.len() - 1], b[b.len() - 1], e));
        assert(k * e + e == (k + 1) * e) by (nonlinear_arith);
    } else {
        mul::lemma_mul_basics(e);
    }
}

/// The sum of item by item sums.
pub proof fn lemma_whole_sum(a: Seq<int>, b: Seq<int>, c: Seq<int>)
    requires
        a.len() == b.len() == c.len(),
        forall|i: int| 0 <= i < c.len() ==> #[trigger] c[i] == a[i] + b[i],
    ensures
        whole(c) == whole(a) + whole(b),
    decreases c.len(),
{
    if c.len() > 0 {
        assert(c[c.len() - 1] == a[a.len() - 1] + b[b.len() - 1]);
        assert forall|i: int| 0 <= i < c.drop_last().len() implies #[trigger] c.drop_last()[i]
            == a.drop_last()[i] + b.drop_last()[i] by {
            assert(c[i] == a[i] + b[i]);
        }
        lemma_whole_sum(a.drop_last(), b.drop_last(), c.drop_last());
    }
}

/// Smaller items have the smaller sum.
pub proof fn lemma_whole_increases(a: Seq<int>, b: Seq<int>)
    requires
        a.len() == b.len(),
        forall|i: int| 0 <= i < a.len() ==> #[trigger] a[i] <= b[i],
    ensures
        whole(a) <= whole(b),
    decreases a.len(),
{
    if a.len() > 0 {
        assert(a[a.len() - 1] <= b[b.len() - 1]);
        assert forall|i: int| 0 <= i < a.drop_last().len() implies #[trigger] a.drop_last()[i]
            <= b.drop_last()[i] by {
            assert(a[i] <= b[i]);
        }
        lemma_whole_increases(a.drop_last(), b.drop_last());
    }
}

/// How far rounding moves an integer.
proof fn lemma_round_error(x: int)
    requires
        0 <= x,
        rounding::round(x, 1) < INFINITE,
    ensures
        0 <= rounding::round(x, 1),
        close(
            rounding::magnitude(rounding::round(x, 1)),
            x,
            rounding::gap(rounding::round(x, 1)),
        ),
{
    let m = rounding::round(x, 1);
    rounding::lemma_round_below(x, 1);
    rounding::lemma_round_above(x, 1);
    rounding::lemma_gap(m);
    if m > 0 {
        rounding::lemma_gap_increases(m - 1, m);
    } else {
        rounding::lemma_magnitude_increases(0, 0);
    }
}

/// A sum of proper numbers is what it is worth, up to its gap.
pub proof fn lemma_sum_error(a: Binary32, b: Binary32)
    requires
        rounded::proper(a),
        rounded::proper(b),
        a.sum(b).finite(),
    ensures
        a.finite(),
        b.finite(),
        rounded::proper(a.sum(b)),
        close(a.sum(b).value(), a.value() + b.value(), rounding::gap(a.sum(b).low())),
        a.value() + b.value() > 0 ==> a.sum(b).low() == rounding::round(
            a.value() + b.value(),
            1,
        ),
{
    rounded::lemma_sum_proper(a, b);
    rounded::lemma_value(a);
    rounded::lemma_value(b);
    rounded::lemma_value(a.sum(b));
    let total = a.value() + b.value();
    rounding::lemma_gap(a.sum(b).low());
    if total > 0 {
        rounding::lemma_round_below(total, 1);
        rounded::lemma_signed(false, rounding::round(total, 1));
        lemma_round_error(total);
    } else {
        rounded::lemma_signed(a.negative() && b.negative(), 0);
        rounding::lemma_magnitude_increases(0, 0);
    }
}

/// The difference to a number that is not larger is what it is worth, up to the gap of
/// the first one.
pub proof fn lemma_difference_error(a: Binary32, b: Binary32)
    requires
        rounded::proper(a),
        rounded::proper(b),
        a.finite(),
        b.at_most(a),
    ensures
        rounded::proper(a.difference(b)),
        a.difference(b).finite(),
        a.difference(b).low() <= a.low(),
        close(a.difference(b).value(), a.value() - b.value(), rounding::gap(a.low())),
{
    let d = a.difference(b);
    rounded::lemma_value(a);
    rounded::lemma_value(b);
    rounded::lemma_value(b.opposite());
    rounded::lemma_less_value(a, b);
    let x = a.value() - b.value();
    rounding::lemma_round_below(x, 1);
    rounding::lemma_round_increases(x, a.size(), 1);
    rounding::lemma_round_magnitude(a.low());
    rounding::lemma_gap(a.low());
    if x > 0 {
        rounded::lemma_signed(false, rounding::round(x, 1));
        lemma_round_error(x);
        rounding::lemma_gap_increases(d.low(), a.low());
    } else {
        rounded::lemma_signed(a.negative() && b.opposite().negative(), 0);
        rounding::lemma_magnitude_increases(0, 0);
    }
}

/// The binary32 sum of proper numbers differs from their exact sum by the gap behind
/// it for each of them, at most.
pub proof fn law_total_error(s: Seq<Binary32>)
    requires
        forall|i: int| 0 <= i < s.len() ==> rounded::proper(#[trigger] s[i]),
        number::total(s).finite(),
    ensures
        close(
            number::total(s).value(),
            exact_total(s),
            s.len() * rounding::gap(number::total(s).low()),
        ),
    decreases s.len(),
{
    if s.len() > 0 {
        let rest = s.drop_last();
        assert forall|i: int| 0 <= i < rest.len() implies rounded::proper(#[trigger] rest[i]) by {
            assert(rest[i] == s[i]);
        }
        assert(s[s.len() - 1] == s.last());
        rounded::lemma_total_proper(rest);
        let before = number::total(rest);
        let after = number::total(s);
        lemma_sum_error(before, s.last());
        rounded::lemma_sum_proper(before, s.last());
        law_total_error(rest);
        assert(values(s).drop_last() =~= values(rest));
        rounding::lemma_gap_increases(before.low(), after.low());
        let k = rest.len();
        let g = rounding::gap(before.low());
        let h = rounding::gap(after.low());
        assert(k * g + h <= (k + 1) * h) by (nonlinear_arith)
            requires
                g <= h,
        ;
    } else {
        rounding::lemma_magnitude_increases(0, 0);
        mul::lemma_mul_basics(rounding::gap(number::total(s).low()));
    }
}

/// A width that is a hundredth at least has all its digits, and a wide gap behind it.
pub proof fn lemma_wide_gap(x: Binary32)
    requires
        x.finite(),
        Binary32::slack().at_most(x),
    ensures
        0x80_0000 <= x.low(),
        power2::pow2(119) <= rounding::gap(x.low()),
        power2::pow2(142) <= x.size(),
        rounded::proper(x),
{
    let slack = Binary32::slack();
    let q = 10737418int;
    assert(slack.low() == 119 * 0x80_0000 + q);
    rounding::lemma_magnitude(119, q);
    rounding::lemma_magnitude(119, q + 1);
    let p = power2::pow2(119) as int;
    assert((q + 1) * p - q * p == p) by (nonlinear_arith);
    rounding::lemma_gap_increases(slack.low(), x.low());
    rounding::lemma_magnitude_increases(slack.low(), x.low());
    power2::lemma_pow2_adds(23, 119);
    power2::lemma2_to64();
    power2::lemma_pow2_pos(119);
    assert(0x80_0000 * p <= q * p) by (nonlinear_arith)
        requires
            0x80_0000 <= q,
            0 < p,
    ;
}

/// Numbers of at most eight or sixteen times a width have at most eight or sixteen
/// times its gap.
pub proof fn lemma_gap_near(x: int, top: Binary32)
    requires
        0 <= x,
        top.finite(),
        0x80_0000 <= top.low(),
        rounding::round(x, 1) < INFINITE,
    ensures
        x <= 8 * top.size() ==> rounding::gap(rounding::round(x, 1)) <= 8 * rounding::gap(top.low())
            && rounding::magnitude(rounding::round(x, 1)) <= 8 * top.size(),
        x <= 16 * top.size() ==> rounding::gap(rounding::round(x, 1)) <= 16 * rounding::gap(
            top.low(),
        ),
{
    let m = top.low();
    rounding::lemma_doubled(m);
    rounding::lemma_doubled(m + 0x80_0000);
    rounding::lemma_doubled(m + 0x100_0000);
    rounding::lemma_doubled(m + 0x180_0000);
    rounding::lemma_round_below(x, 1);
    if x <= 8 * top.size() {
        lemma_round_within(x, m + 0x180_0000);
    }
    if x <= 16 * top.size() {
        lemma_round_within(x, m + 0x200_0000);
    }
}

/// What is worth no more than a magnitude rounds to no more.
pub proof fn lemma_round_within(x: int, m: int)
    requires
        0 <= x <= rounding::magnitude(m),
        0 <= m,
    ensures
        rounding::round(x, 1) <= m,
        rounding::gap(rounding::round(x, 1)) <= rounding::gap(m),
        rounding::magnitude(rounding::round(x, 1)) <= rounding::magnitude(m),
{
    rounding::lemma_round_at_most(x, 1, m);
    rounding::lemma_gap_increases(rounding::round(x, 1), m);
    rounding::lemma_magnitude_increases(rounding::round(x, 1), m);
}

/// How far the two roundings behind a part move it.
pub proof fn lemma_part_error(take: Binary32, weight: Binary32, all: Binary32)
    requires
        rounded::proper(take),
        rounded::proper(weight),
        take.at_most(all),
        weight.at_most(all),
        all.finite(),
        !all.is_zero(),
        take.product(weight).quotient(all).finite(),
    ensures
        ({
            let t = take.size();
            let g = weight.size();
            let s = all.size();
            let p = take.product(weight).quotient(all).size();
            let unit = power2::pow2(149);
            &&& rounded::proper(take.product(weight).quotient(all))
            &&& close(
                0x80_0000 * (s * p),
                0x80_0000 * (t * g),
                6 * (t * g) + 0x180_0000 * unit + 0x100_0000 * s,
            )
            &&& s * p <= 4 * (t * g) + 4 * unit + 2 * s
            &&& s < power2::pow2(74) ==> p == 0
        }),
{
    let unit = power2::pow2(149) as int;
    power2::lemma_pow2_pos(149);
    let x = take.product(weight);
    let y = x.quotient(all);
    assert(x.finite()) by {
        if x.infinite() {
            rounded::lemma_signed(x.negative() != all.negative(), INFINITE as int);
        }
    }
    rounded::lemma_part_rounded(take, weight, all);
    rounded::lemma_value(x);
    rounded::lemma_value(y);
    let t = take.size();
    let g = weight.size();
    let s = all.size();
    let m = x.low();
    let k = y.low();
    let a = x.size() * unit;
    let b = t * g;
    let c = s * y.size();
    mul::lemma_mul_nonnegative(t, g);
    mul::lemma_mul_nonnegative(x.size(), unit);
    mul::lemma_mul_nonnegative(s, y.size());
    lemma_scaled_round(b, unit, m);
    lemma_scaled_round(a, s, k);
    assert(x.size() * unit == unit * x.size()) by (nonlinear_arith);
    if s < power2::pow2(74) {
        let h = power2::pow2(74) as int;
        power2::lemma_pow2_adds(74, 74);
        power2::lemma_pow2_unfold(149);
        rounded::lemma_value(weight);
        rounded::lemma_value(all);
        rounded::lemma_less_value(all, weight);
        assert(2 * b < unit) by (nonlinear_arith)
            requires
                b == t * g,
                0 <= t <= s < h,
                0 <= g <= s,
                unit == 2 * (h * h),
        ;
        rounding::lemma_round_to_zero(b, unit);
        rounding::lemma_magnitude_increases(0, 0);
        mul::lemma_mul_basics(unit);
        rounding::lemma_round_zero(s);
    }
}

/// How far rounding moves a quotient, counted in fractions of its denominator.
pub proof fn lemma_scaled_round(num: int, den: int, m: int)
    requires
        0 <= num,
        0 < den,
        m == rounding::round(num, den),
        m < INFINITE,
    ensures
        ({
            let r = den * rounding::magnitude(m);
            &&& close(0x80_0000 * r, 0x80_0000 * num, 2 * num + 0x80_0002 * den)
            &&& r <= 2 * num + 2 * den
        }),
{
    rounding::lemma_round_below(num, den);
    rounding::lemma_round_above(num, den);
    rounding::lemma_gap(m);
    let v = rounding::magnitude(m);
    let gap = rounding::gap(m);
    let r = den * v;
    assert(0x80_0000 * (den * gap) <= r + 0x80_0000 * den) by (nonlinear_arith)
        requires
            r == den * v,
            0x80_0000 * (gap - 1) <= v,
            0 < den,
    ;
    assert(den * (v + gap) == r + den * gap) by (nonlinear_arith)
        requires
            r == den * v,
    ;
    if m > 0 {
        rounding::lemma_gap_increases(m - 1, m);
        let below = rounding::magnitude(m - 1);
        assert(r <= den * below + den * gap) by (nonlinear_arith)
            requires
                r == den * v,
                v <= below + gap,
                0 < den,
        ;
    } else {
        rounding::lemma_magnitude_increases(0, 0);
        mul::lemma_mul_basics(den);
        mul::lemma_mul_nonnegative(den, gap);
    }
    assert(close(r, num, den * gap));
}

/// The parts of an amount, by weight.
pub open spec fn parts(amount: Binary32, weights: Seq<Binary32>) -> Seq<Binary32> {
    Seq::new(weights.len(), |i: int| distribute::part(amount, weights[i], weights))
}

/// How far rounding moves the sum of the first `k` parts, counted in fractions of all
/// weights.
proof fn lemma_parts_error(take: Binary32, weights: Seq<Binary32>, k: int)
    requires
        0 <= k <= weights.len(),
        rounded::proper(take),
        forall|i: int| 0 <= i < weights.len() ==> rounded::proper(#[trigger] weights[i]),
        forall|i: int| 0 <= i < weights.len() ==> (#[trigger] parts(take, weights)[i]).finite(),
        take.at_most(number::total(weights)),
        number::total(weights).finite(),
        !number::total(weights).is_zero(),
    ensures
        ({
            let s = number::total(weights).size();
            let p = whole(values(parts(take, weights)).take(k));
            let g = whole(values(weights).take(k));
            let t = take.size();
            let unit = power2::pow2(149);
            &&& 0 <= g
            &&& close(
                0x80_0000 * (s * p),
                0x80_0000 * (t * g),
                6 * (t * g) + k * (0x180_0000 * unit + 0x100_0000 * s),
            )
        }),
    decreases k,
{
    let all = number::total(weights);
    let s = all.size();
    let t = take.size();
    let unit = power2::pow2(149) as int;
    let ps = values(parts(take, weights));
    let gs = values(weights);
    if k > 0 {
        lemma_parts_error(take, weights, k - 1);
        assert(ps.take(k).drop_last() =~= ps.take(k - 1));
        assert(gs.take(k).drop_last() =~= gs.take(k - 1));
        let weight = weights[k - 1];
        let part = parts(take, weights)[k - 1];
        rounded::lemma_total_term(weights, k - 1);
        assert(part.finite());
        lemma_part_error(take, weight, all);
        rounded::lemma_value(weight);
        rounded::lemma_value(part);
        let p0 = whole(ps.take(k - 1));
        let g0 = whole(gs.take(k - 1));
        let p1 = part.size();
        let g1 = weight.size();
        let e = 0x180_0000 * unit + 0x100_0000 * s;
        assert(s * (p0 + p1) == s * p0 + s * p1 && t * (g0 + g1) == t * g0 + t * g1 && (k - 1) * e
            + e == k * e) by (nonlinear_arith);
    } else {
        assert(ps.take(0) =~= Seq::empty());
        assert(gs.take(0) =~= Seq::empty());
        mul::lemma_mul_basics(s);
        mul::lemma_mul_basics(t);
        mul::lemma_mul_basics(0x180_0000 * unit + 0x100_0000 * s);
    }
}

/// Sharing by weight leaves nothing over, up to rounding.
proof fn lemma_parts_arithmetic(
    n: int,
    t: int,
    s: int,
    p: int,
    g: int,
    unit: int,
    q: int,
    gs: int,
    gap: int,
)
    requires
        1 <= n <= 0x80_0000,
        0 <= t <= s,
        0 < s,
        0 <= g,
        close(
            0x80_0000 * (s * p),
            0x80_0000 * (t * g),
            6 * (t * g) + n * (0x180_0000 * unit + 0x100_0000 * s),
        ),
        close(s, g, n * gs),
        0x80_0000 * (gs - 1) <= s,
        unit <= q * s,
        t <= 0x100_0000 * gap,
        4 <= gap,
        0 <= q <= gap,
    ensures
        close(p, t, 30 * (n * gap)),
{
    let d = 0x80_0000int;
    assert(d * (n * gs) <= n * s + d * n) by (nonlinear_arith)
        requires
            d * (gs - 1) <= s,
            1 <= n,
    ;
    assert(n * s <= d * s) by (nonlinear_arith)
        requires
            n <= d,
            0 < s,
    ;
    assert(g <= 2 * s + n);
    let tg = t * g;
    let ts = t * s;
    let ns = n * s;
    assert(tg <= 2 * ts + ns) by (nonlinear_arith)
        requires
            tg == t * g,
            ts == t * s,
            ns == n * s,
            g <= 2 * s + n,
            0 <= t <= s,
            1 <= n,
    ;
    let nts = n * ts;
    assert(close(d * tg, d * ts, nts + d * ns)) by {
        let e = n * s + d * n;
        assert(close(d * g, d * s, e));
        assert(d * tg - d * ts <= t * e && d * ts - d * tg <= t * e) by (nonlinear_arith)
            requires
                d * g - d * s <= e,
                d * s - d * g <= e,
                tg == t * g,
                ts == t * s,
                0 <= t,
        ;
        assert(t * e <= nts + d * ns) by (nonlinear_arith)
            requires
                e == n * s + d * n,
                nts == n * ts,
                ts == t * s,
                ns == n * s,
                0 <= t <= s,
                1 <= n,
                d == 0x80_0000,
        ;
    }
    let sp = s * p;
    let nu = n * unit;
    let qns = q * ns;
    assert(nu <= qns) by (nonlinear_arith)
        requires
            nu == n * unit,
            qns == q * ns,
            ns == n * s,
            unit <= q * s,
            1 <= n,
    ;
    assert(n * (0x180_0000 * unit + 0x100_0000 * s) == 0x180_0000 * nu + 0x100_0000 * ns)
        by (nonlinear_arith)
        requires
            nu == n * unit,
            ns == n * s,
    ;
    let bound = 12 * ts + 6 * ns + 3 * d * qns + 2 * d * ns + nts + d * ns;
    assert(close(d * sp, d * ts, bound));
    // Without the common factor `s`.
    let qn = q * n;
    let nt = n * t;
    let rest = 12 * t + 6 * n + 3 * d * qn + 2 * d * n + nt + d * n;
    assert(bound == s * rest) by {
        let a1 = 12 * t;
        let a2 = 6 * n + 2 * d * n + d * n;
        let a3 = 3 * d * qn;
        assert(s * (a1 + a2 + a3 + nt) == s * a1 + s * a2 + s * a3 + s * nt)
            by (nonlinear_arith);
        assert(s * a1 == 12 * ts) by (nonlinear_arith)
            requires
                a1 == 12 * t,
                ts == t * s,
        ;
        assert(s * a2 == 6 * ns + 2 * d * ns + d * ns) by (nonlinear_arith)
            requires
                a2 == 6 * n + 2 * d * n + d * n,
                ns == n * s,
                d == 0x80_0000,
        ;
        assert(s * a3 == 3 * d * qns) by (nonlinear_arith)
            requires
                a3 == 3 * d * qn,
                qn == q * n,
                qns == q * ns,
                ns == n * s,
                d == 0x80_0000,
        ;
        assert(s * nt == nts) by (nonlinear_arith)
            requires
                nt == n * t,
                nts == n * ts,
                ts == t * s,
        ;
    }
    assert(d * (p - t) <= rest && d * (t - p) <= rest) by (nonlinear_arith)
        requires
            d * sp - d * ts <= s * rest,
            d * ts - d * sp <= s * rest,
            sp == s * p,
            ts == t * s,
            0 < s,
    ;
    let ng = n * gap;
    assert(n * t <= 2 * d * ng) by (nonlinear_arith)
        requires
            t <= 2 * d * gap,
            ng == n * gap,
            1 <= n,
            0 <= t,
    ;
    assert(t <= n * t && 4 * n <= ng && q * n <= ng) by (nonlinear_arith)
        requires
            1 <= n,
            0 <= t,
            4 <= gap,
            q <= gap,
            ng == n * gap,
    ;
}

/// Sharing by weight leaves nothing over, up to rounding. The amount is no larger than
/// `top`, a width of a hundredth at least.
proof fn lemma_parts(take: Binary32, weights: Seq<Binary32>, top: Binary32)
    requires
        1 <= weights.len() <= 0x80_0000,
        rounded::proper(take),
        forall|i: int| 0 <= i < weights.len() ==> rounded::proper(#[trigger] weights[i]),
        forall|i: int| 0 <= i < weights.len() ==> (#[trigger] parts(take, weights)[i]).finite(),
        take.at_most(number::total(weights)),
        number::total(weights).finite(),
        Binary32::zero().less(number::total(weights)),
        top.finite(),
        Binary32::slack().at_most(top),
        take.at_most(top),
    ensures
        close(
            exact_total(parts(take, weights)),
            take.value(),
            30 * (weights.len() * rounding::gap(top.low())),
        ),
        forall|i: int|
            0 <= i < weights.len() ==> rounded::proper(#[trigger] parts(take, weights)[i])
                && parts(take, weights)[i].size() <= 5 * top.size(),
{
    let all = number::total(weights);
    let ps = parts(take, weights);
    let n = weights.len() as int;
    let unit = power2::pow2(149) as int;
    let q = power2::pow2(75) as int;
    let gap = rounding::gap(top.low());
    lemma_wide_gap(top);
    rounded::lemma_value(take);
    rounded::lemma_value(all);
    rounded::lemma_value(top);
    rounded::lemma_less_value(all, take);
    rounded::lemma_less_value(top, take);
    power2::lemma_pow2_pos(74);
    power2::lemma_pow2_unfold(75);
    power2::lemma_pow2_adds(74, 75);
    power2::lemma_pow2_adds(75, 44);
    power2::lemma_pow2_adds(75, 67);
    power2::lemma2_to64();
    power2::lemma2_to64_rest();
    power2::lemma_pow2_adds(3, 64);
    assert(q * 8 <= gap && q * 8 <= top.size() && 4 <= gap) by {
        let x = power2::pow2(44) as int;
        let y = power2::pow2(67) as int;
        assert(q * 8 <= q * x && q * 8 <= q * y) by (nonlinear_arith)
            requires
                8 <= x,
                8 <= y,
                0 < q,
        ;
    }
    let s = all.size();
    let t = take.size();
    rounding::lemma_gap(top.low());
    assert(values(ps).take(n) =~= values(ps));
    assert(values(weights).take(n) =~= values(weights));
    assert forall|i: int| 0 <= i < n implies rounded::proper(#[trigger] ps[i]) && ps[i].size() <= 5
        * top.size() && (s < power2::pow2(74) ==> ps[i].value() == 0) by {
        assert(parts(take, weights)[i].finite());
        rounded::lemma_total_term(weights, i);
        lemma_part_error(take, weights[i], all);
        rounded::lemma_value(ps[i]);
        if s >= power2::pow2(74) {
            let h = power2::pow2(74) as int;
            let p = ps[i].size();
            let g = weights[i].size();
            rounded::lemma_value(weights[i]);
            rounded::lemma_less_value(all, weights[i]);
            assert(p <= 4 * t + 4 * q + 2) by (nonlinear_arith)
                requires
                    s * p <= 4 * (t * g) + 4 * unit + 2 * s,
                    0 <= g <= s,
                    0 <= t,
                    unit == h * q,
                    h <= s,
                    0 < q,
                    0 < s,
            ;
        }
    }
    if s < power2::pow2(74) {
        lemma_whole_zero(values(ps));
        assert(gap <= n * gap) by (nonlinear_arith)
            requires
                1 <= n,
                0 <= gap,
        ;
    } else {
        let h = power2::pow2(74) as int;
        assert(unit <= q * s) by (nonlinear_arith)
            requires
                unit == h * q,
                h <= s,
                0 < q,
        ;
        lemma_parts_error(take, weights, n);
        law_total_error(weights);
        rounding::lemma_gap(all.low());
        lemma_parts_arithmetic(
            n,
            t,
            s,
            exact_total(ps),
            exact_total(weights),
            unit,
            q,
            rounding::gap(all.low()),
            gap,
        );
    }
}

/// The sum of nothing but zeros.
pub proof fn lemma_whole_zero(s: Seq<int>)
    requires
        forall|i: int| 0 <= i < s.len() ==> #[trigger] s[i] == 0,
    ensures
        whole(s) == 0,
    decreases s.len(),
{
    if s.len() > 0 {
        assert(s[s.len() - 1] == 0);
        assert forall|i: int| 0 <= i < s.drop_last().len() implies #[trigger] s.drop_last()[i]
            == 0 by {
            assert(s[i] == 0);
        }
        lemma_whole_zero(s.drop_last());
    }
}

/// Growing by weight adds the whole amount, up to rounding.
proof fn lemma_grown(w: Seq<Binary32>, take: Binary32, weights: Seq<Binary32>, top: Binary32)
    requires
        1 <= w.len() == weights.len() <= 0x80_0000,
        forall|i: int| 0 <= i < w.len() ==> rounded::proper(#[trigger] w[i]),
        forall|i: int| 0 <= i < w.len() ==> (#[trigger] w[i]).at_most(top),
        rounded::proper(take),
        forall|i: int| 0 <= i < weights.len() ==> rounded::proper(#[trigger] weights[i]),
        take.at_most(number::total(weights)),
        number::total(weights).finite(),
        Binary32::zero().less(number::total(weights)),
        top.finite(),
        Binary32::slack().at_most(top),
        take.at_most(top),
        forall|i: int|
            0 <= i < w.len() ==> (#[trigger] distribute::grown(w, take, weights)[i]).finite(),
    ensures
        close(
            exact_total(distribute::grown(w, take, weights)),
            exact_total(w) + take.value(),
            38 * (w.len() * rounding::gap(top.low())),
        ),
        forall|i: int|
            0 <= i < w.len() ==> rounded::proper(
                #[trigger] distribute::grown(w, take, weights)[i],
            ) && distribute::grown(w, take, weights)[i].size() <= 8 * top.size(),
{
    let r = distribute::grown(w, take, weights);
    let ps = parts(take, weights);
    let n = w.len() as int;
    let gap = rounding::gap(top.low());
    lemma_wide_gap(top);
    rounded::lemma_value(top);
    assert forall|i: int| 0 <= i < n implies (#[trigger] ps[i]).finite() by {
        assert(r[i] == w[i].sum(ps[i]));
        assert(r[i].finite());
        assert(rounded::proper(w[i]));
    }
    lemma_parts(take, weights, top);
    let both = Seq::new(w.len(), |i: int| w[i].value() + ps[i].value());
    lemma_whole_sum(values(w), values(ps), both);
    assert forall|i: int| 0 <= i < n implies close(#[trigger] values(r)[i], both[i], 8 * gap)
        && rounded::proper(r[i]) && r[i].size() <= 8 * top.size() by {
        assert(r[i] == w[i].sum(ps[i]));
        assert(r[i].finite());
        assert(rounded::proper(w[i]) && w[i].at_most(top));
        assert(rounded::proper(ps[i]));
        lemma_sum_error(w[i], ps[i]);
        rounded::lemma_value(w[i]);
        rounded::lemma_value(ps[i]);
        rounded::lemma_value(r[i]);
        rounded::lemma_less_value(top, w[i]);
        let x = w[i].value() + ps[i].value();
        if x > 0 {
            lemma_gap_near(x, top);
        } else {
            rounding::lemma_gap_increases(0, top.low());
            rounding::lemma_round_zero(1);
            rounded::lemma_signed(w[i].negative() && ps[i].negative(), 0);
        }
    }
    assert forall|i: int| 0 <= i < n implies rounded::proper(#[trigger] r[i]) && r[i].size() <= 8
        * top.size() by {
        assert(close(values(r)[i], both[i], 8 * gap));
    }
    lemma_whole_close(values(r), both, 8 * gap);
    assert(n * (8 * gap) == 8 * (n * gap)) by (nonlinear_arith);
}

/// What stretching adds to the first `k` of `n` columns.
proof fn lemma_stretches(pct: Seq<Binary32>, n: int, share: int, k: int)
    requires
        0 <= k <= n <= pct.len(),
    ensures
        ({
            let by = Seq::new(
                n as nat,
                |i: int|
                    if distribute::stretches(pct, n, i) {
                        share
                    } else {
                        0
                    },
            );
            whole(by.take(k)) == share * (if distribute::plain_columns(pct, n) == 0 {
                k
            } else {
                distribute::plain_columns(pct, k)
            })
        }),
    decreases k,
{
    let by = Seq::new(
        n as nat,
        |i: int|
            if distribute::stretches(pct, n, i) {
                share
            } else {
                0
            },
    );
    if k > 0 {
        lemma_stretches(pct, n, share, k - 1);
        assert(by.take(k).drop_last() =~= by.take(k - 1));
        let before = if distribute::plain_columns(pct, n) == 0 {
            k - 1
        } else {
            distribute::plain_columns(pct, k - 1)
        };
        assert(share * before + share == share * (before + 1)) by (nonlinear_arith);
    } else {
        assert(by.take(0) =~= Seq::empty());
        mul::lemma_mul_basics(share);
    }
}

/// Counts of up to 24 digits are exact.
proof fn lemma_count_exact(m: int)
    requires
        1 <= m <= 0x100_0000,
    ensures
        Binary32::count(m).finite(),
        !Binary32::count(m).negative(),
        Binary32::count(m).size() == m * power2::pow2(149),
{
    power2::lemma2_to64();
    power2::lemma_pow2_adds(24, 126);
    power2::lemma_pow2_pos(126);
    let p = power2::pow2(150) as int;
    let h = power2::pow2(126) as int;
    assert(0x100_0000 <= m * p) by (nonlinear_arith)
        requires
            p == 0x100_0000 * h,
            1 <= h,
            1 <= m,
    ;
    let bits = rounding::lemma_whole_magnitude(m, 149);
    rounding::lemma_round_magnitude(bits);
    rounded::lemma_signed(false, bits);
}

/// Equal shares of an amount make up the amount, up to rounding.
pub proof fn lemma_share(left: Binary32, m: int)
    requires
        1 <= m <= 0x100_0000,
        rounded::proper(left),
        left.finite(),
    ensures
        ({
            let share = left.quotient(Binary32::count(m));
            &&& rounded::proper(share)
            &&& share.finite()
            &&& share.low() <= left.low()
            &&& 0 <= share.size() <= left.size()
            &&& 0 <= rounding::gap(left.low())
            &&& close(share.size() * m, left.size(), m * rounding::gap(left.low()))
        }),
{
    let unit = power2::pow2(149) as int;
    let c = Binary32::count(m);
    let share = left.quotient(c);
    power2::lemma_pow2_pos(149);
    lemma_count_exact(m);
    rounded::lemma_count(m);
    rounded::lemma_value(left);
    mul::lemma_mul_strictly_positive(m, unit);
    rounding::lemma_magnitude_increases(0, 0);
    let v = left.size();
    let num = v * unit;
    let den = m * unit;
    assert(0 <= num <= den * v) by (nonlinear_arith)
        requires
            num == v * unit,
            den == m * unit,
            1 <= m,
            0 <= v,
            0 < unit,
    ;
    rounding::lemma_round_at_most(num, den, left.low());
    let k = rounding::round(num, den);
    rounded::lemma_signed(left.negative(), k);
    rounded::lemma_quotient_proper(left, c);
    assert(share.low() == k);
    rounded::lemma_value(share);
    rounding::lemma_gap(left.low());
    rounding::lemma_gap_increases(k, left.low());
    rounding::lemma_magnitude_increases(k, left.low());
    let gap = rounding::gap(left.low());
    let s = share.size();
    rounding::lemma_round_below(num, den);
    rounding::lemma_round_above(num, den);
    let above = rounding::magnitude(k + 1);
    assert(v <= m * above) by (nonlinear_arith)
        requires
            num == v * unit,
            den == m * unit,
            num <= den * above,
            0 < unit,
    ;
    assert(m * above <= s * m + m * gap) by (nonlinear_arith)
        requires
            above <= s + gap,
            1 <= m,
    ;
    if k > 0 {
        let below = rounding::magnitude(k - 1);
        rounding::lemma_gap_increases(k - 1, k);
        assert(m * below <= v) by (nonlinear_arith)
            requires
                num == v * unit,
                den == m * unit,
                den * below <= num,
                0 < unit,
        ;
        assert(s * m <= m * below + m * gap) by (nonlinear_arith)
            requires
                s <= below + gap,
                1 <= m,
        ;
    } else {
        mul::lemma_mul_basics(m);
        mul::lemma_mul_nonnegative(m, gap);
    }
}

/// Stretching adds the whole amount, up to rounding.
proof fn lemma_stretched(w: Seq<Binary32>, left: Binary32, pct: Seq<Binary32>, top: Binary32)
    requires
        1 <= w.len() <= 0x80_0000,
        w.len() <= pct.len(),
        forall|i: int|
            0 <= i < w.len() ==> rounded::proper(#[trigger] w[i]) && w[i].finite() && w[i].size()
                <= 8 * top.size(),
        Binary32::zero().less(left),
        left.at_most(top),
        top.finite(),
        Binary32::slack().at_most(top),
        forall|i: int|
            0 <= i < w.len() ==> (#[trigger] distribute::stretched(w, left, pct)[i]).finite(),
    ensures
        close(
            exact_total(distribute::stretched(w, left, pct)),
            exact_total(w) + left.value(),
            17 * (w.len() * rounding::gap(top.low())),
        ),
{
    let n = w.len() as int;
    let r = distribute::stretched(w, left, pct);
    let m = if distribute::plain_columns(pct, n) == 0 {
        n
    } else {
        distribute::plain_columns(pct, n)
    };
    let gap = rounding::gap(top.low());
    let share = left.quotient(Binary32::count(m));
    rounded::lemma_plain_columns(pct, n);
    lemma_wide_gap(top);
    rounded::lemma_value(top);
    lemma_share(left, m);
    rounded::lemma_value(left);
    rounded::lemma_value(share);
    rounded::lemma_less_value(top, left);
    rounding::lemma_gap_increases(left.low(), top.low());
    let s = share.size();
    let each = rounding::gap(left.low());
    assert(m * each <= n * gap) by (nonlinear_arith)
        requires
            0 <= each <= gap,
            1 <= m <= n,
    ;
    let by = Seq::new(
        w.len(),
        |i: int|
            if distribute::stretches(pct, n, i) {
                s
            } else {
                0
            },
    );
    lemma_stretches(pct, n, s, n);
    assert(by.take(n) =~= by);
    let both = Seq::new(w.len(), |i: int| w[i].value() + by[i]);
    lemma_whole_sum(values(w), by, both);
    assert forall|i: int| 0 <= i < n implies close(#[trigger] values(r)[i], both[i], 16 * gap) by {
        assert(r[i].finite());
        assert(rounded::proper(w[i]));
        if distribute::stretches(pct, n, i) {
            assert(r[i] == w[i].sum(share));
            lemma_sum_error(w[i], share);
            rounded::lemma_value(w[i]);
            let x = w[i].value() + share.value();
            if x > 0 {
                lemma_gap_near(x, top);
            } else {
                rounding::lemma_gap_increases(0, top.low());
                rounded::lemma_signed(w[i].negative() && share.negative(), 0);
            }
        }
    }
    lemma_whole_close(values(r), both, 16 * gap);
    assert(n * (16 * gap) == 16 * (n * gap)) by (nonlinear_arith);
}

/// What columns claim is proper where the least widths are, and no less than those.
pub proof fn lemma_claims(avail: Binary32, min: Seq<Binary32>, pct: Seq<Binary32>)
    requires
        forall|i: int| 0 <= i < min.len() ==> rounded::proper(#[trigger] min[i]),
    ensures
        ({
            let w = distribute::claims(avail, min, pct);
            &&& forall|i: int| 0 <= i < w.len() ==> rounded::proper(#[trigger] w[i])
            &&& forall|i: int| 0 <= i < w.len() ==> min[i].at_most(#[trigger] w[i])
            &&& forall|i: int|
                0 <= i < w.len() ==> (#[trigger] w[i]).at_most(number::total(w))
        }),
{
    let w = distribute::claims(avail, min, pct);
    assert forall|i: int| 0 <= i < w.len() implies rounded::proper(#[trigger] w[i])
        && min[i].at_most(w[i]) by {
        assert(rounded::proper(min[i]));
    }
    assert forall|i: int| 0 <= i < w.len() implies (#[trigger] w[i]).at_most(
        number::total(w),
    ) by {
        rounded::lemma_total_term(w, i);
    }
}

/// Columns that claim less than the width fill it, up to rounding.
pub proof fn lemma_filled(
    avail: Binary32,
    min: Seq<Binary32>,
    max: Seq<Binary32>,
    pct: Seq<Binary32>,
)
    requires
        1 <= min.len() == max.len() == pct.len() <= 0x80_0000,
        forall|i: int| 0 <= i < min.len() ==> rounded::proper(#[trigger] min[i]),
        avail.finite(),
        ({
            let w = distribute::claims(avail, min, pct);
            &&& number::total(w).sum(Binary32::slack()).less(avail)
            &&& number::total(distribute::room(w, max, pct)).finite()
        }),
        forall|i: int|
            0 <= i < min.len() ==> (#[trigger] distribute::distributed(
                avail,
                min,
                max,
                pct,
            )[i]).finite(),
    ensures
        Binary32::slack().at_most(avail),
        number::total(distribute::claims(avail, min, pct)).at_most(avail),
        close(
            exact_total(distribute::distributed(avail, min, max, pct)),
            avail.value(),
            58 * (min.len() * rounding::gap(avail.low())),
        ),
{
    let n = min.len() as int;
    let w = distribute::claims(avail, min, pct);
    let assigned = number::total(w);
    let slack = Binary32::slack();
    let extra = avail.difference(assigned);
    let grow = distribute::room(w, max, pct);
    let growth = number::total(grow);
    let gap = rounding::gap(avail.low());
    let r = distribute::distributed(avail, min, max, pct);
    lemma_claims(avail, min, pct);
    rounded::lemma_total_proper(w);
    rounded::lemma_sum_proper(assigned, slack);
    rounded::lemma_sum_other(assigned, slack);
    lemma_wide_gap(avail);
    assert(assigned.finite());
    law_total_error(w);
    rounding::lemma_gap_increases(assigned.low(), avail.low());
    lemma_difference_error(avail, assigned);
    rounded::lemma_difference_proper(avail, assigned);
    let error = n * gap;
    assert(n * rounding::gap(assigned.low()) <= error && gap <= error) by (nonlinear_arith)
        requires
            error == n * gap,
            rounding::gap(assigned.low()) <= gap,
            1 <= n,
            0 <= gap,
    ;
    assert forall|i: int| 0 <= i < n implies rounded::proper(#[trigger] grow[i]) by {
        rounded::lemma_larger_proper(max[i].difference(w[i]));
    }
    rounded::lemma_total_proper(grow);
    let some = Binary32::zero().less(growth);
    let take = extra.smaller(growth);
    let wider = if some {
        distribute::grown(w, take, grow)
    } else {
        w
    };
    let left = if some {
        extra.difference(take)
    } else {
        extra
    };
    let stretch = Binary32::zero().less(left);
    assert(r == if stretch {
        distribute::stretched(wider, left, pct)
    } else {
        wider
    });
    rounded::lemma_value(avail);
    assert forall|i: int| 0 <= i < n implies (#[trigger] wider[i]).finite() by {
        assert(r[i].finite());
        if stretch && distribute::stretches(pct, n, i) {
            assert(r[i] == wider[i].sum(left.quotient(
                Binary32::count(
                    if distribute::plain_columns(pct, n) == 0 {
                        n
                    } else {
                        distribute::plain_columns(pct, n)
                    },
                ),
            )));
        }
    }
    let given = if some {
        take.value()
    } else {
        0
    };
    assert forall|i: int| 0 <= i < n implies (#[trigger] w[i]).at_most(avail) by {}
    assert(close(exact_total(wider), exact_total(w) + given, 38 * error) && forall|i: int|
        0 <= i < n ==> rounded::proper(#[trigger] wider[i]) && wider[i].finite()
            && wider[i].size() <= 8 * avail.size()) by {
        if some {
            lemma_grown(w, take, grow, avail);
        } else {
            assert forall|i: int| 0 <= i < n implies rounded::proper(#[trigger] wider[i])
                && wider[i].finite() && wider[i].size() <= 8 * avail.size() by {
                assert(w[i].at_most(avail));
                rounded::lemma_value(w[i]);
                rounded::lemma_less_value(avail, w[i]);
            }
        }
    }
    if some {
        lemma_difference_error(extra, take);
        rounding::lemma_gap_increases(extra.low(), avail.low());
    }
    rounded::lemma_value(left);
    rounded::lemma_value(extra);
    assert(close(left.value(), extra.value() - given, gap));
    if stretch {
        assert(left.at_most(avail));
        lemma_stretched(wider, left, pct, avail);
    } else {
        assert(left.low() == 0);
        rounding::lemma_magnitude_increases(0, 0);
    }
}

/// A difference of proper numbers is what it is worth, up to eight times the gap of a
/// width `top`, where neither is much larger than that.
pub proof fn lemma_any_difference_error(a: Binary32, b: Binary32, top: Binary32)
    requires
        rounded::proper(a),
        rounded::proper(b),
        a.finite(),
        b.finite(),
        a.size() <= 8 * top.size(),
        b.size() <= 8 * top.size(),
        a.difference(b).finite(),
        top.finite(),
        0x80_0000 <= top.low(),
    ensures
        close(a.difference(b).value(), a.value() - b.value(), 8 * rounding::gap(top.low())),
{
    let d = a.difference(b);
    rounded::lemma_value(a);
    rounded::lemma_value(b);
    rounded::lemma_value(b.opposite());
    let x = a.value() - b.value();
    rounding::lemma_gap(top.low());
    if x > 0 {
        rounding::lemma_round_below(x, 1);
        rounded::lemma_signed(false, rounding::round(x, 1));
        lemma_round_error(x);
        lemma_gap_near(x, top);
    } else if x < 0 {
        rounding::lemma_round_below(-x, 1);
        rounded::lemma_signed(true, rounding::round(-x, 1));
        lemma_round_error(-x);
        lemma_gap_near(-x, top);
    } else {
        rounded::lemma_signed(a.negative() && b.opposite().negative(), 0);
        rounding::lemma_magnitude_increases(0, 0);
    }
}

/// Larger items have the larger binary32 sum.
pub proof fn lemma_total_increases(a: Seq<Binary32>, b: Seq<Binary32>)
    requires
        a.len() == b.len(),
        forall|i: int| 0 <= i < a.len() ==> rounded::proper(#[trigger] a[i]),
        forall|i: int| 0 <= i < b.len() ==> rounded::proper(#[trigger] b[i]),
        forall|i: int| 0 <= i < a.len() ==> (#[trigger] a[i]).at_most(b[i]),
    ensures
        number::total(a).at_most(number::total(b)),
    decreases a.len(),
{
    if a.len() > 0 {
        let x = a.drop_last();
        let y = b.drop_last();
        assert forall|i: int| 0 <= i < x.len() implies rounded::proper(#[trigger] x[i]) by {
            assert(x[i] == a[i]);
        }
        assert forall|i: int| 0 <= i < y.len() implies rounded::proper(#[trigger] y[i]) by {
            assert(y[i] == b[i]);
        }
        assert forall|i: int| 0 <= i < x.len() implies (#[trigger] x[i]).at_most(y[i]) by {
            assert(a[i].at_most(b[i]));
        }
        lemma_total_increases(x, y);
        rounded::lemma_total_proper(x);
        rounded::lemma_total_proper(y);
        assert(a[a.len() - 1].at_most(b[b.len() - 1]));
        assert(rounded::proper(a[a.len() - 1]) && rounded::proper(b[b.len() - 1]));
        lemma_sum_increases(number::total(x), a.last(), number::total(y), b.last());
    }
}

/// Sums of larger proper numbers are larger.
proof fn lemma_sum_increases(a: Binary32, b: Binary32, c: Binary32, d: Binary32)
    requires
        rounded::proper(a),
        rounded::proper(b),
        rounded::proper(c),
        rounded::proper(d),
        a.at_most(c),
        b.at_most(d),
    ensures
        a.sum(b).at_most(c.sum(d)),
{
    rounded::lemma_sum_proper(a, b);
    rounded::lemma_sum_proper(c, d);
    if c.finite() && d.finite() {
        rounded::lemma_value(a);
        rounded::lemma_value(b);
        rounded::lemma_value(c);
        rounded::lemma_value(d);
        rounded::lemma_less_value(c, a);
        rounded::lemma_less_value(d, b);
        let x = a.value() + b.value();
        let y = c.value() + d.value();
        rounding::lemma_round_increases(x, y, 1);
        rounding::lemma_round_below(x, 1);
        rounding::lemma_round_below(y, 1);
        rounded::lemma_signed(false, rounding::round(x, 1));
        rounded::lemma_signed(false, rounding::round(y, 1));
        if x == 0 {
            rounded::lemma_signed(a.negative() && b.negative(), 0);
        }
    }
}

/// The larger of two integers.
pub open spec fn greater(a: int, b: int) -> int {
    if a < b {
        b
    } else {
        a
    }
}

/// Columns that claim more than the width fill it or, where their least widths need
/// more, take up those, up to rounding.
pub proof fn lemma_relieved(
    avail: Binary32,
    min: Seq<Binary32>,
    max: Seq<Binary32>,
    pct: Seq<Binary32>,
)
    requires
        1 <= min.len() == max.len() == pct.len() <= 0x80_0000,
        forall|i: int| 0 <= i < min.len() ==> rounded::proper(#[trigger] min[i]),
        rounded::proper(avail),
        number::total(distribute::claims(avail, min, pct)).finite(),
        avail.sum(Binary32::slack()).less(number::total(distribute::claims(avail, min, pct))),
        forall|i: int|
            0 <= i < min.len() ==> (#[trigger] distribute::distributed(
                avail,
                min,
                max,
                pct,
            )[i]).finite(),
    ensures
        ({
            let assigned = number::total(distribute::claims(avail, min, pct));
            &&& Binary32::slack().at_most(assigned)
            &&& avail.at_most(assigned)
            &&& close(
                exact_total(distribute::distributed(avail, min, max, pct)),
                greater(avail.value(), exact_total(min)),
                46 * (min.len() * rounding::gap(assigned.low())),
            )
        }),
{
    let n = min.len() as int;
    let w = distribute::claims(avail, min, pct);
    let assigned = number::total(w);
    let slack = Binary32::slack();
    let excess = assigned.difference(avail);
    let give = distribute::spare(w, min);
    let all = number::total(give);
    let gap = rounding::gap(assigned.low());
    let r = distribute::distributed(avail, min, max, pct);
    lemma_claims(avail, min, pct);
    rounded::lemma_sum_proper(avail, slack);
    rounded::lemma_sum_other(avail, slack);
    lemma_wide_gap(assigned);
    if assigned.sum(slack).less(avail) {
        rounded::lemma_sum_proper(assigned, slack);
    }
    law_total_error(w);
    lemma_difference_error(assigned, avail);
    rounded::lemma_difference_proper(assigned, avail);
    rounded::lemma_value(assigned);
    rounded::lemma_value(avail);
    rounding::lemma_gap(assigned.low());
    let error = n * gap;
    assert(gap <= error) by (nonlinear_arith)
        requires
            error == n * gap,
            1 <= n,
            0 <= gap,
    ;
    // What the columns have to spare, in all.
    assert forall|i: int| 0 <= i < n implies rounded::proper(#[trigger] give[i])
        && give[i].finite() && give[i].at_most(w[i]) && close(
        give[i].value(),
        w[i].value() - min[i].value(),
        gap,
    ) && min[i].value() <= w[i].value() by {
        assert(rounded::proper(w[i]) && rounded::proper(min[i]));
        assert(w[i].at_most(assigned) && min[i].at_most(w[i]));
        rounded::lemma_spare(w[i], min[i]);
        rounded::lemma_value(w[i]);
        rounded::lemma_value(min[i]);
        rounded::lemma_value(give[i]);
        rounded::lemma_less_value(w[i], min[i]);
        rounding::lemma_gap_increases(w[i].low(), assigned.low());
    }
    lemma_total_increases(give, w);
    rounded::lemma_total_proper(give);
    law_total_error(give);
    rounding::lemma_gap_increases(all.low(), assigned.low());
    assert(n * rounding::gap(all.low()) <= error) by (nonlinear_arith)
        requires
            error == n * gap,
            rounding::gap(all.low()) <= gap,
            1 <= n,
    ;
    let room = Seq::new(w.len(), |i: int| w[i].value() - min[i].value());
    lemma_whole_sum(values(min), room, values(w));
    assert forall|i: int| 0 <= i < n implies close(#[trigger] values(give)[i], room[i], gap) by {
        assert(rounded::proper(give[i]));
    }
    lemma_whole_close(values(give), room, gap);
    rounded::lemma_value(all);
    rounded::lemma_value(excess);
    let take = excess.smaller(all);
    rounded::lemma_less_value(all, excess);
    // What they give.
    let given = if Binary32::zero().less(all) {
        take.value()
    } else {
        0
    };
    assert(close(exact_total(r), exact_total(w) - given, 38 * error)) by {
        if Binary32::zero().less(all) {
            let ps = parts(take, give);
            assert forall|i: int| 0 <= i < n implies (#[trigger] ps[i]).finite() by {
                assert(r[i] == w[i].difference(ps[i]));
                assert(r[i].finite());
                assert(rounded::proper(w[i]));
            }
            lemma_parts(take, give, assigned);
            let both = Seq::new(w.len(), |i: int| w[i].value() - ps[i].value());
            lemma_whole_sum(both, values(ps), values(w));
            assert forall|i: int| 0 <= i < n implies close(
                #[trigger] values(r)[i],
                both[i],
                8 * gap,
            ) by {
                assert(r[i] == w[i].difference(ps[i]));
                assert(r[i].finite());
                assert(rounded::proper(w[i]) && w[i].at_most(assigned));
                assert(rounded::proper(ps[i]) && ps[i].finite());
                rounded::lemma_value(w[i]);
                rounded::lemma_less_value(assigned, w[i]);
                lemma_any_difference_error(w[i], ps[i], assigned);
            }
            lemma_whole_close(values(r), both, 8 * gap);
            assert(n * (8 * gap) == 8 * (n * gap)) by (nonlinear_arith);
        } else {
            assert(r == w);
        }
    }
    assert(given == if excess.value() < all.value() {
        excess.value()
    } else {
        all.value()
    }) by {
        if !Binary32::zero().less(all) {
            assert(all.low() == 0);
            rounding::lemma_magnitude_increases(0, 0);
        }
    }
}

/// Columns that claim the width, to a hundredth, are left as they are.
proof fn lemma_fitting(avail: Binary32, min: Seq<Binary32>, pct: Seq<Binary32>)
    requires
        1 <= min.len(),
        forall|i: int| 0 <= i < min.len() ==> rounded::proper(#[trigger] min[i]),
        rounded::proper(avail),
        avail.finite(),
        ({
            let assigned = number::total(distribute::claims(avail, min, pct));
            &&& assigned.finite()
            &&& !assigned.sum(Binary32::slack()).less(avail)
            &&& !avail.sum(Binary32::slack()).less(assigned)
        }),
    ensures
        ({
            let w = distribute::claims(avail, min, pct);
            let top = avail.larger(number::total(w)).larger(Binary32::slack());
            close(
                exact_total(w),
                greater(avail.value(), exact_total(min)),
                9 * (min.len() * rounding::gap(top.low())) + Binary32::slack().value(),
            )
        }),
{
    let n = min.len() as int;
    let w = distribute::claims(avail, min, pct);
    let assigned = number::total(w);
    let slack = Binary32::slack();
    let top = avail.larger(assigned).larger(slack);
    let gap = rounding::gap(top.low());
    lemma_claims(avail, min, pct);
    rounded::lemma_total_proper(w);
    lemma_wide_gap(top);
    law_total_error(w);
    rounding::lemma_gap_increases(assigned.low(), top.low());
    lemma_within_slack(avail, assigned, top);
    lemma_within_slack(assigned, avail, top);
    let error = n * gap;
    assert(n * rounding::gap(assigned.low()) <= error && 8 * gap <= 8 * error)
        by (nonlinear_arith)
        requires
            error == n * gap,
            rounding::gap(assigned.low()) <= gap,
            1 <= n,
            0 <= gap,
    ;
    assert forall|i: int| 0 <= i < n implies #[trigger] values(min)[i] <= values(w)[i] by {
        assert(rounded::proper(w[i]) && rounded::proper(min[i]));
        assert(w[i].at_most(assigned) && min[i].at_most(w[i]));
        rounded::lemma_less_value(w[i], min[i]);
    }
    lemma_whole_increases(values(min), values(w));
}

/// A width that another one and a hundredth do not reach is larger by a hundredth at
/// most, up to rounding.
pub proof fn lemma_within_slack(a: Binary32, b: Binary32, top: Binary32)
    requires
        rounded::proper(a),
        rounded::proper(b),
        a.finite(),
        b.finite(),
        top.finite(),
        Binary32::slack().at_most(top),
        b.at_most(top),
        !b.sum(Binary32::slack()).less(a),
    ensures
        a.value() - b.value() <= Binary32::slack().value() + 8 * rounding::gap(top.low()),
{
    let slack = Binary32::slack();
    let s = b.sum(slack);
    lemma_wide_gap(top);
    rounded::lemma_sum_proper(b, slack);
    rounded::lemma_value(a);
    rounded::lemma_value(b);
    rounded::lemma_value(slack);
    rounded::lemma_value(top);
    rounded::lemma_less_value(top, b);
    rounded::lemma_less_value(top, slack);
    let x = b.value() + slack.value();
    lemma_wide_gap(slack);
    power2::lemma_pow2_pos(142);
    rounding::lemma_gap(top.low());
    if s.finite() {
        lemma_sum_error(b, slack);
        rounded::lemma_less_value(s, a);
        lemma_gap_near(x, top);
    } else {
        rounding::lemma_round_below(x, 1);
        rounded::lemma_signed(false, rounding::round(x, 1));
        assert(rounding::round(x, 1) == INFINITE);
        rounding::lemma_magnitude_increases(a.low(), INFINITE - 1);
    }
}

/// The columns fill the width or, where the least widths of their content need more,
/// take up those: to a hundredth where they claim that much at once, and up to
/// rounding. The exact sum of their widths is off by sixty-four times the gap behind
/// the width, or behind what the columns claim where that is more, for each column. No
/// least width is negative, and no number is infinite.
pub proof fn law_fill(avail: Binary32, min: Seq<Binary32>, max: Seq<Binary32>, pct: Seq<Binary32>)
    requires
        1 <= min.len() == max.len() == pct.len() <= 0x80_0000,
        forall|i: int| 0 <= i < min.len() ==> rounded::proper(#[trigger] min[i]),
        rounded::proper(avail),
        avail.finite(),
        ({
            let w = distribute::claims(avail, min, pct);
            &&& number::total(w).finite()
            &&& number::total(distribute::room(w, max, pct)).finite()
        }),
        forall|i: int|
            0 <= i < min.len() ==> (#[trigger] distribute::distributed(
                avail,
                min,
                max,
                pct,
            )[i]).finite(),
    ensures
        ({
            let assigned = number::total(distribute::claims(avail, min, pct));
            let slack = Binary32::slack();
            let top = avail.larger(assigned).larger(slack);
            let error = 64 * (min.len() * rounding::gap(top.low()));
            let all = exact_total(distribute::distributed(avail, min, max, pct));
            let goal = greater(avail.value(), exact_total(min));
            &&& close(all, goal, error + slack.value())
            &&& assigned.sum(slack).less(avail) || avail.sum(slack).less(assigned) ==> close(
                all,
                goal,
                error,
            )
        }),
{
    let n = min.len() as int;
    let w = distribute::claims(avail, min, pct);
    let assigned = number::total(w);
    let slack = Binary32::slack();
    let top = avail.larger(assigned).larger(slack);
    rounded::lemma_value(slack);
    lemma_claims(avail, min, pct);
    rounded::lemma_total_proper(w);
    lemma_wide_gap(top);
    power2::lemma_pow2_pos(119);
    mul::lemma_mul_nonnegative(n, rounding::gap(top.low()));
    if assigned.sum(slack).less(avail) {
        lemma_filled(avail, min, max, pct);
        assert(top.low() == avail.low());
        law_total_error(w);
        rounding::lemma_gap_increases(assigned.low(), avail.low());
        rounded::lemma_less_value(avail, assigned);
        let gap = rounding::gap(avail.low());
        assert(n * rounding::gap(assigned.low()) <= n * gap) by (nonlinear_arith)
            requires
                rounding::gap(assigned.low()) <= gap,
                1 <= n,
        ;
        assert forall|i: int| 0 <= i < n implies #[trigger] values(min)[i] <= values(w)[i] by {
            assert(rounded::proper(w[i]) && rounded::proper(min[i]));
            assert(w[i].at_most(assigned) && min[i].at_most(w[i]));
            rounded::lemma_less_value(w[i], min[i]);
        }
        lemma_whole_increases(values(min), values(w));
    } else if avail.sum(slack).less(assigned) {
        lemma_relieved(avail, min, max, pct);
        assert(top.low() == assigned.low());
    } else {
        lemma_fitting(avail, min, pct);
        assert(distribute::distributed(avail, min, max, pct) == w);
    }
}

/// A list whose items fall short of those of another list by `e` at most exceeds it at
/// each place by no more than in all, but for that.
pub proof fn lemma_whole_excess(a: Seq<int>, b: Seq<int>, i: int, e: int)
    requires
        a.len() == b.len(),
        0 <= i < a.len(),
        0 <= e,
        forall|k: int| 0 <= k < a.len() ==> b[k] - #[trigger] a[k] <= e,
    ensures
        a[i] - b[i] <= whole(a) - whole(b) + a.len() * e,
    decreases a.len(),
{
    let x = a.drop_last();
    let y = b.drop_last();
    let k = x.len();
    assert forall|j: int| 0 <= j < x.len() implies y[j] - #[trigger] x[j] <= e by {
        assert(b[j] - a[j] <= e);
    }
    assert(k * e + e == (k + 1) * e) by (nonlinear_arith);
    assert(b[a.len() - 1] - a[a.len() - 1] <= e);
    if i < a.len() - 1 {
        lemma_whole_excess(x, y, i, e);
    } else {
        lemma_whole_short(x, y, e);
    }
}

/// A list whose items fall short of those of another list by `e` at most.
proof fn lemma_whole_short(a: Seq<int>, b: Seq<int>, e: int)
    requires
        a.len() == b.len(),
        forall|k: int| 0 <= k < a.len() ==> b[k] - #[trigger] a[k] <= e,
    ensures
        whole(b) - whole(a) <= a.len() * e,
    decreases a.len(),
{
    if a.len() > 0 {
        let x = a.drop_last();
        let y = b.drop_last();
        let k = x.len();
        assert forall|j: int| 0 <= j < x.len() implies y[j] - #[trigger] x[j] <= e by {
            assert(b[j] - a[j] <= e);
        }
        assert(k * e + e == (k + 1) * e) by (nonlinear_arith);
        assert(b[a.len() - 1] - a[a.len() - 1] <= e);
        lemma_whole_short(x, y, e);
    } else {
        mul::lemma_mul_basics(e);
    }
}

/// Where the columns claim too much, and the least widths of their content need the
/// width or more, each column has its least width, up to rounding.
pub proof fn law_overflow(
    avail: Binary32,
    min: Seq<Binary32>,
    max: Seq<Binary32>,
    pct: Seq<Binary32>,
    i: int,
)
    requires
        1 <= min.len() == max.len() == pct.len() <= 0x80_0000,
        0 <= i < min.len(),
        forall|k: int| 0 <= k < min.len() ==> rounded::proper(#[trigger] min[k]),
        rounded::proper(avail),
        number::total(distribute::claims(avail, min, pct)).finite(),
        avail.sum(Binary32::slack()).less(number::total(distribute::claims(avail, min, pct))),
        avail.value() <= exact_total(min),
        forall|k: int|
            0 <= k < min.len() ==> (#[trigger] distribute::distributed(
                avail,
                min,
                max,
                pct,
            )[k]).finite(),
    ensures
        close(
            distribute::distributed(avail, min, max, pct)[i].value(),
            min[i].value(),
            64 * (min.len() * rounding::gap(
                number::total(distribute::claims(avail, min, pct)).low(),
            )),
        ),
{
    let n = min.len() as int;
    let w = distribute::claims(avail, min, pct);
    let assigned = number::total(w);
    let r = distribute::distributed(avail, min, max, pct);
    let gap = rounding::gap(assigned.low());
    lemma_relieved(avail, min, max, pct);
    lemma_claims(avail, min, pct);
    lemma_wide_gap(assigned);
    power2::lemma_pow2_strictly_increases(78, 119);
    assert forall|k: int| 0 <= k < n implies values(min)[k] - #[trigger] values(r)[k] <= 9
        * gap by {
        assert(rounded::proper(w[k]) && rounded::proper(min[k]));
        assert(w[k].at_most(assigned) && min[k].at_most(w[k]));
        assert(r[k].finite());
        rounded::law_floor_shrunk(avail, min, max, pct, k);
        rounding::lemma_gap_increases(w[k].low(), assigned.low());
    }
    lemma_whole_excess(values(r), values(min), i, 9 * gap);
    assert(n * (9 * gap) == 9 * (n * gap)) by (nonlinear_arith);
    assert(gap <= n * gap) by (nonlinear_arith)
        requires
            1 <= n,
            0 <= gap,
    ;
    assert(values(min)[i] - values(r)[i] <= 9 * gap);
}

}
