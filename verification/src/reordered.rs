//! How far rounding lets the order of columns matter.

use vstd::arithmetic::mul;
use vstd::arithmetic::power2;
use vstd::prelude::*;

use crate::binary32::Binary32;
use crate::distribute;
use crate::exact;
use crate::monotone;
use crate::number;
use crate::number::Number;
use crate::rounded;
use crate::rounding;
use crate::rounding::INFINITE;
use crate::sums;

verus! {

/// The sum without one item.
proof fn lemma_whole_remove(s: Seq<int>, i: int)
    requires
        0 <= i < s.len(),
    ensures
        sums::whole(s) == sums::whole(s.remove(i)) + s[i],
    decreases s.len(),
{
    if i == s.len() - 1 {
        assert(s.remove(i) =~= s.drop_last());
    } else {
        lemma_whole_remove(s.drop_last(), i);
        assert(s.remove(i).drop_last() =~= s.drop_last().remove(i));
        assert(s.remove(i).last() == s.last());
    }
}

/// The sum does not depend on the order of the items.
proof fn lemma_whole_reordered(s: Seq<int>, order: Seq<int>)
    requires
        exact::is_order(order, s.len() as int),
    ensures
        sums::whole(exact::reordered(s, order)) == sums::whole(s),
    decreases s.len(),
{
    let r = exact::reordered(s, order);
    if s.len() > 0 {
        let last = order.last();
        assert(order[order.len() - 1] == last);
        let rest = s.remove(last);
        let shorter = Seq::new(
            (order.len() - 1) as nat,
            |i: int|
                if order[i] < last {
                    order[i]
                } else {
                    order[i] - 1
                },
        );
        assert forall|i: int| 0 <= i < shorter.len() implies 0 <= #[trigger] shorter[i]
            < rest.len() by {
            assert(order[i] != order[order.len() - 1]);
        }
        assert forall|i: int, j: int| 0 <= i < j < shorter.len() implies #[trigger] shorter[i]
            != #[trigger] shorter[j] by {
            assert(order[i] != order[j]);
            assert(order[i] != order[order.len() - 1]);
            assert(order[j] != order[order.len() - 1]);
        }
        lemma_whole_reordered(rest, shorter);
        lemma_whole_remove(s, last);
        assert forall|i: int| 0 <= i < shorter.len() implies r.drop_last()[i]
            == #[trigger] exact::reordered(rest, shorter)[i] by {
            assert(order[i] != order[order.len() - 1]);
            assert(0 <= order[i] < s.len());
        }
        assert(r.drop_last() =~= exact::reordered(rest, shorter));
    } else {
        assert(r =~= s);
    }
}

/// The exact sum does not depend on the order of the items.
proof fn lemma_exact_reordered(s: Seq<Binary32>, order: Seq<int>)
    requires
        exact::is_order(order, s.len() as int),
    ensures
        sums::exact_total(exact::reordered(s, order)) == sums::exact_total(s),
{
    assert forall|i: int| 0 <= i < order.len() implies sums::values(exact::reordered(s, order))[i]
        == #[trigger] exact::reordered(sums::values(s), order)[i] by {
        assert(0 <= order[i] < s.len());
    }
    assert(sums::values(exact::reordered(s, order)) =~= exact::reordered(sums::values(s), order));
    lemma_whole_reordered(sums::values(s), order);
}

/// What each percentage counts for, times all of them, is the whole, up to rounding.
proof fn lemma_scale(pct: Seq<Binary32>)
    requires
        forall|i: int| 0 <= i < pct.len() ==> rounded::proper(#[trigger] pct[i]),
        number::total(pct).finite(),
    ensures
        ({
            let unit = power2::pow2(149) as int;
            let scale = distribute::scale(pct);
            let all = sums::greater(number::total(pct).size(), unit);
            &&& rounded::proper(scale)
            &&& scale.finite()
            &&& 0 <= scale.size()
            &&& sums::close(
                0x80_0000 * (scale.size() * all),
                0x80_0000 * (unit * unit),
                10 * (unit * unit),
            )
        }),
{
    let unit = power2::pow2(149) as int;
    let one = Binary32::one();
    let psum = number::total(pct);
    let scale = distribute::scale(pct);
    power2::lemma_pow2_pos(149);
    rounded::lemma_one();
    rounded::lemma_value(one);
    rounded::lemma_total_proper(pct);
    rounded::lemma_value(psum);
    rounded::lemma_less_value(one, psum);
    mul::lemma_mul_strictly_positive(unit, unit);
    if one.less(psum) {
        let p = psum.size();
        let num = unit * unit;
        assert(num <= p * unit) by (nonlinear_arith)
            requires
                num == unit * unit,
                unit < p,
                0 < unit,
        ;
        rounding::lemma_round_at_most(num, p, one.low());
        let m = rounding::round(num, p);
        rounded::lemma_signed(false, m);
        rounded::lemma_value(scale);
        sums::lemma_scaled_round(num, p, m);
        assert(p * scale.size() == scale.size() * p) by (nonlinear_arith);
        // The whole is not too small to divide by anything finite.
        rounding::lemma_magnitude(253, 0x100_0000);
        rounding::lemma_magnitude_increases(psum.low(), INFINITE as int);
        power2::lemma_pow2_adds(24, 253);
        power2::lemma_pow2_adds(21, 277);
        power2::lemma_pow2_adds(149, 149);
        power2::lemma2_to64();
        assert(0x80_0002 * p <= 5 * num);
    } else {
        rounded::lemma_value(scale);
    }
}

/// What a percentage column's part of the width is worth, by the roundings behind it.
proof fn lemma_target_arithmetic(
    n: int,
    u: int,
    s: int,
    qk: int,
    q: int,
    p: int,
    v: int,
    x: int,
    y: int,
    gq: int,
    g: int,
)
    requires
        1 <= n <= 0xffff,
        0x100_0000 <= u,
        0 <= s,
        0 <= p <= qk,
        u <= qk,
        u <= q,
        0 <= v <= 0x100_0000 * g,
        0 <= x,
        0 <= y,
        8 <= g,
        sums::close(0x80_0000 * (s * qk), 0x80_0000 * (u * u), 10 * (u * u)),
        sums::close(0x80_0000 * (u * x), 0x80_0000 * (p * s), 2 * (p * s) + 0x80_0002 * u),
        sums::close(0x80_0000 * (u * y), 0x80_0000 * (x * v), 2 * (x * v) + 0x80_0002 * u),
        sums::close(qk, q, n * gq),
        0x80_0000 * (gq - 1) <= qk,
    ensures
        sums::close(y * q, p * v, 110 * (n * g) * q),
{
    let d = 0x80_0000int;
    let uu = u * u;
    let ps = p * s;
    let sq = s * qk;
    assert(ps <= sq && 0 <= ps) by (nonlinear_arith)
        requires
            ps == p * s,
            sq == s * qk,
            0 <= p <= qk,
            0 <= s,
    ;
    assert(ps <= 2 * uu);
    assert(0x80_0002 * u <= uu) by (nonlinear_arith)
        requires
            uu == u * u,
            0x100_0000 <= u,
    ;
    let ux = u * x;
    assert(sums::close(d * ux, d * ps, 5 * uu));
    assert(x <= 3 * u) by (nonlinear_arith)
        requires
            u * x <= 3 * (u * u),
            0 < u,
    ;
    let xv = x * v;
    let uv = u * v;
    assert(0 <= xv <= 3 * uv) by (nonlinear_arith)
        requires
            xv == x * v,
            uv == u * v,
            0 <= x <= 3 * u,
            0 <= v,
    ;
    let uy = u * y;
    assert(sums::close(d * uy, d * xv, 6 * uv + 0x80_0002 * u));
    // All scaled by `u`.
    let uuy = u * uy;
    let uxv = u * xv;
    let uuv = uu * v;
    let psv = ps * v;
    lemma_close_scaled(d * uy, d * xv, 6 * uv + 0x80_0002 * u, u);
    assert(u * (d * uy) == d * uuy && u * (d * xv) == d * uxv && (6 * uv + 0x80_0002 * u) * u == 6
        * uuv + 0x80_0002 * uu) by (nonlinear_arith)
        requires
            uuy == u * uy,
            uxv == u * xv,
            uuv == uu * v,
            uv == u * v,
            uu == u * u,
            d == 0x80_0000,
    ;
    lemma_close_scaled(d * ux, d * ps, 5 * uu, v);
    assert(v * (d * ux) == d * uxv && v * (d * ps) == d * psv && 5 * uu * v == 5 * uuv)
        by (nonlinear_arith)
        requires
            uxv == u * xv,
            xv == x * v,
            ux == u * x,
            psv == ps * v,
            uuv == uu * v,
            d == 0x80_0000,
    ;
    assert(sums::close(d * uuy, d * psv, 11 * uuv + 0x80_0002 * uu));
    // All scaled by `qk` too.
    let e = 11 * uuv + 0x80_0002 * uu;
    lemma_close_scaled(d * uuy, d * psv, e, qk);
    let pv = p * v;
    lemma_close_scaled(d * sq, d * uu, 10 * uu, pv);
    assert(0 <= pv <= qk * v) by (nonlinear_arith)
        requires
            pv == p * v,
            0 <= p <= qk,
            0 <= v,
    ;
    let yq = y * qk;
    let a = uu * yq;
    let b = uu * pv;
    let c = uu * (qk * v);
    let f = uu * qk;
    let h = psv * qk;
    assert(qk * (d * uuy) == d * a && qk * (d * psv) == d * h && e * qk == 11 * c + 0x80_0002 * f)
        by {
        assert(qk * (d * uuy) == d * a) by (nonlinear_arith)
            requires
                a == uu * yq,
                yq == y * qk,
                uuy == u * uy,
                uy == u * y,
                uu == u * u,
        ;
        assert(qk * (d * psv) == d * h) by (nonlinear_arith)
            requires
                h == psv * qk,
        ;
        assert(e * qk == 11 * c + 0x80_0002 * f) by (nonlinear_arith)
            requires
                e == 11 * uuv + 0x80_0002 * uu,
                uuv == uu * v,
                c == uu * (qk * v),
                f == uu * qk,
        ;
    }
    assert(pv * (d * sq) == d * h) by (nonlinear_arith)
        requires
            h == psv * qk,
            psv == ps * v,
            ps == p * s,
            sq == s * qk,
            pv == p * v,
    ;
    assert(pv * (d * uu) == d * b && 10 * uu * pv == 10 * b) by (nonlinear_arith)
        requires
            b == uu * pv,
    ;
    assert(b <= c) by (nonlinear_arith)
        requires
            b == uu * pv,
            c == uu * (qk * v),
            pv <= qk * v,
            0 <= uu,
    ;
    assert(sums::close(d * a, d * b, 21 * c + 0x80_0002 * f));
    // Without the common factor.
    let k = qk * (21 * v + 0x80_0002);
    assert(21 * c + 0x80_0002 * f == uu * k) by (nonlinear_arith)
        requires
            c == uu * (qk * v),
            f == uu * qk,
            k == qk * (21 * v + 0x80_0002),
    ;
    assert(d * (yq - pv) <= k && d * (pv - yq) <= k) by (nonlinear_arith)
        requires
            d * a - d * b <= uu * k,
            d * b - d * a <= uu * k,
            a == uu * yq,
            b == uu * pv,
            0 < uu,
    ;
    let most = (d + 21) * v + 0x80_0002;
    assert(qk * most == d * (qk * v) + k) by (nonlinear_arith)
        requires
            most == (d + 21) * v + 0x80_0002,
            k == qk * (21 * v + 0x80_0002),
            d == 0x80_0000,
    ;
    assert(qk * (d * y) == d * yq) by (nonlinear_arith)
        requires
            yq == y * qk,
            d == 0x80_0000,
    ;
    assert(d * y <= most) by (nonlinear_arith)
        requires
            qk * (d * y) <= qk * most,
            0 < qk,
    ;
    assert(y <= 2 * v + 2);
    // From the rounded sum of percentages to the exact one.
    assert(d * (n * gq) <= n * qk + d * n) by (nonlinear_arith)
        requires
            d * (gq - 1) <= qk,
            1 <= n,
    ;
    let nq = n * qk;
    assert(d * n <= nq) by (nonlinear_arith)
        requires
            nq == n * qk,
            d <= qk,
            1 <= n,
    ;
    assert(sums::close(d * qk, d * q, 2 * nq));
    lemma_close_scaled(d * qk, d * q, 2 * nq, y);
    let z = y * q;
    assert(y * (d * qk) == d * yq && y * (d * q) == d * z) by (nonlinear_arith)
        requires
            yq == y * qk,
            z == y * q,
    ;
    let nvq = n * (v * qk);
    assert(2 * nq * y <= 4 * nvq + 4 * nq) by (nonlinear_arith)
        requires
            nq == n * qk,
            nvq == n * (v * qk),
            0 <= y <= 2 * v + 2,
            0 <= nq,
    ;
    let vq = v * qk;
    assert(k == 21 * vq + 0x80_0002 * qk) by (nonlinear_arith)
        requires
            k == qk * (21 * v + 0x80_0002),
            vq == v * qk,
    ;
    assert(vq <= nvq && 0 <= vq) by (nonlinear_arith)
        requires
            nvq == n * vq,
            vq == v * qk,
            0 <= v,
            0 <= qk,
            1 <= n,
    ;
    assert(4 * nq <= 0x4_0000 * qk) by (nonlinear_arith)
        requires
            nq == n * qk,
            n <= 0xffff,
            0 <= qk,
    ;
    assert(sums::close(d * z, d * pv, 25 * nvq + 2 * d * qk));
    assert(qk <= 2 * q) by (nonlinear_arith)
        requires
            d * qk - d * q <= 2 * nq,
            nq == n * qk,
            1 <= n <= 0xffff,
            d == 0x80_0000,
            0 <= qk,
    ;
    let ng = n * g;
    assert(nvq <= 4 * d * (ng * q)) by {
        let nv = n * v;
        assert(nv <= 2 * d * ng) by (nonlinear_arith)
            requires
                nv == n * v,
                ng == n * g,
                v <= 2 * d * g,
                1 <= n,
        ;
        assert(0 <= nv) by (nonlinear_arith)
            requires
                nv == n * v,
                0 <= v,
                1 <= n,
        ;
        assert(nvq <= 2 * (nv * q)) by (nonlinear_arith)
            requires
                nvq == n * (v * qk),
                nv == n * v,
                qk <= 2 * q,
                0 <= nv,
        ;
        assert(nv * q <= 2 * d * (ng * q)) by (nonlinear_arith)
            requires
                nv <= 2 * d * ng,
                0 <= q,
                d == 0x80_0000,
        ;
    }
    assert(8 * q <= ng * q) by (nonlinear_arith)
        requires
            ng == n * g,
            1 <= n,
            8 <= g,
            0 <= q,
    ;
    assert(110 * (n * g) * q == 110 * (ng * q)) by (nonlinear_arith)
        requires
            ng == n * g,
    ;
}

/// Scaling integers that are close.
proof fn lemma_close_scaled(a: int, b: int, e: int, k: int)
    requires
        sums::close(a, b, e),
        0 <= k,
    ensures
        sums::close(k * a, k * b, e * k),
{
    assert(k * a - k * b <= e * k && k * b - k * a <= e * k) by (nonlinear_arith)
        requires
            a - b <= e,
            b - a <= e,
            0 <= k,
    ;
}

/// No percentage counts for much more than the whole.
proof fn lemma_counted(p: int, s: int, q: int)
    requires
        0 <= p <= q,
        0 <= s,
        ({
            let unit = power2::pow2(149) as int;
            sums::close(0x80_0000 * (s * q), 0x80_0000 * (unit * unit), 10 * (unit * unit))
        }),
    ensures
        0 <= rounding::round(p * s, power2::pow2(149) as int) < INFINITE,
{
    let unit = power2::pow2(149) as int;
    let uu = unit * unit;
    let ps = p * s;
    let sq = s * q;
    power2::lemma_pow2_pos(149);
    mul::lemma_mul_nonnegative(unit, unit);
    assert(0 <= ps <= sq) by (nonlinear_arith)
        requires
            ps == p * s,
            sq == s * q,
            0 <= p <= q,
            0 <= s,
    ;
    assert(ps <= unit * (2 * unit)) by (nonlinear_arith)
        requires
            ps <= 2 * uu,
            uu == unit * unit,
    ;
    let one = Binary32::one();
    rounded::lemma_one();
    rounded::lemma_value(one);
    rounding::lemma_doubled(one.low());
    rounding::lemma_round_at_most(ps, unit, one.low() + 0x80_0000);
}

/// What a percentage column's part of the width is worth: its percentage of the width
/// or, where all percentages exceed the whole, its share among them.
proof fn lemma_target(avail: Binary32, pct: Seq<Binary32>, i: int, top: Binary32)
    requires
        0 <= i < pct.len() <= 0xffff,
        forall|k: int| 0 <= k < pct.len() ==> rounded::proper(#[trigger] pct[k]),
        number::total(pct).finite(),
        rounded::proper(avail),
        avail.at_most(top),
        top.finite(),
        Binary32::slack().at_most(top),
        !pct[i].product(distribute::scale(pct)).product(avail).infinite(),
    ensures
        ({
            let unit = power2::pow2(149) as int;
            let y = pct[i].product(distribute::scale(pct)).product(avail);
            let q = sums::greater(sums::exact_total(pct), unit);
            &&& rounded::proper(y)
            &&& y.finite()
            &&& 0 < q
            &&& sums::close(
                y.value() * q,
                pct[i].value() * avail.value(),
                110 * (pct.len() * rounding::gap(top.low())) * q,
            )
        }),
{
    let n = pct.len() as int;
    let unit = power2::pow2(149) as int;
    let scale = distribute::scale(pct);
    let psum = number::total(pct);
    let x = pct[i].product(scale);
    let y = x.product(avail);
    let g = rounding::gap(top.low());
    power2::lemma_pow2_pos(149);
    power2::lemma2_to64();
    power2::lemma_pow2_adds(24, 125);
    power2::lemma_pow2_pos(125);
    lemma_scale(pct);
    rounded::lemma_total_term(pct, i);
    rounded::lemma_total_proper(pct);
    sums::law_total_error(pct);
    sums::lemma_wide_gap(top);
    power2::lemma_pow2_strictly_increases(3, 119);
    rounded::lemma_value(pct[i]);
    rounded::lemma_value(psum);
    rounded::lemma_value(scale);
    rounded::lemma_less_value(psum, pct[i]);
    lemma_counted(pct[i].size(), scale.size(), sums::greater(psum.size(), unit));
    let counted = rounding::round(pct[i].size() * scale.size(), unit);
    rounded::lemma_signed(pct[i].negative() != scale.negative(), counted);
    assert(x.finite());
    rounded::lemma_product_proper(pct[i], scale);
    rounded::lemma_value(x);
    rounded::lemma_value(avail);
    mul::lemma_mul_nonnegative(x.size(), avail.size());
    rounding::lemma_round_below(x.size() * avail.size(), unit);
    rounded::lemma_signed(
        x.negative() != avail.negative(),
        rounding::round(x.size() * avail.size(), unit),
    );
    assert(y.finite());
    rounded::lemma_product_proper(x, avail);
    rounded::lemma_value(avail);
    rounded::lemma_value(top);
    rounded::lemma_value(x);
    rounded::lemma_value(y);
    rounded::lemma_less_value(psum, pct[i]);
    rounded::lemma_less_value(top, avail);
    rounding::lemma_gap(top.low());
    rounding::lemma_gap(psum.low());
    let p = pct[i].size();
    let s = scale.size();
    let v = avail.size();
    mul::lemma_mul_nonnegative(p, s);
    mul::lemma_mul_nonnegative(x.size(), v);
    rounding::lemma_round_below(p * s, unit);
    rounding::lemma_round_below(x.size() * v, unit);
    rounded::lemma_signed(pct[i].negative() != scale.negative(), rounding::round(p * s, unit));
    rounded::lemma_signed(x.negative() != avail.negative(), rounding::round(x.size() * v, unit));
    sums::lemma_scaled_round(p * s, unit, x.low());
    sums::lemma_scaled_round(x.size() * v, unit, y.low());
    let qk = sums::greater(psum.size(), unit);
    let q = sums::greater(sums::exact_total(pct), unit);
    let gq = rounding::gap(psum.low());
    mul::lemma_mul_nonnegative(n, gq);
    lemma_target_arithmetic(n, unit, s, qk, q, p, v, x.size(), y.size(), gq, g);
}

/// Whether the widths that columns get of a width are made of finite numbers: no least
/// width or percentage is negative, and `top` is no smaller than the width, than what
/// the columns claim, and than a hundredth.
pub open spec fn sound(
    avail: Binary32,
    min: Seq<Binary32>,
    max: Seq<Binary32>,
    pct: Seq<Binary32>,
    top: Binary32,
) -> bool {
    let w = distribute::claims(avail, min, pct);
    &&& 1 <= min.len() == max.len() == pct.len() <= 0xffff
    &&& forall|i: int| 0 <= i < min.len() ==> rounded::proper(#[trigger] min[i])
    &&& forall|i: int| 0 <= i < pct.len() ==> rounded::proper(#[trigger] pct[i])
    &&& rounded::proper(avail)
    &&& number::total(pct).finite()
    &&& number::total(distribute::room(w, max, pct)).finite()
    &&& forall|i: int|
        0 <= i < min.len() ==> (#[trigger] distribute::distributed(
            avail,
            min,
            max,
            pct,
        )[i]).finite()
    &&& top.finite()
    &&& avail.at_most(top)
    &&& number::total(w).at_most(top)
    &&& Binary32::slack().at_most(top)
}

/// Whether columns have sound numbers in two orders: as they are, and reordered.
pub open spec fn sound_both(
    avail: Binary32,
    min: Seq<Binary32>,
    max: Seq<Binary32>,
    pct: Seq<Binary32>,
    order: Seq<int>,
    top: Binary32,
) -> bool {
    &&& exact::is_order(order, min.len() as int)
    &&& sound(avail, min, max, pct, top)
    &&& sound(
        avail,
        exact::reordered(min, order),
        exact::reordered(max, order),
        exact::reordered(pct, order),
        top,
    )
}

/// The claims of a column in two orders.
proof fn lemma_claim_pair(
    avail: Binary32,
    min: Seq<Binary32>,
    max: Seq<Binary32>,
    pct: Seq<Binary32>,
    order: Seq<int>,
    top: Binary32,
    i: int,
)
    requires
        sound_both(avail, min, max, pct, order, top),
        0 <= i < min.len(),
    ensures
        ({
            let a = distribute::claims(avail, min, pct)[order[i]];
            let b = distribute::claims(
                avail,
                exact::reordered(min, order),
                exact::reordered(pct, order),
            )[i];
            &&& sums::close(b.value(), a.value(), 220 * (min.len() * rounding::gap(top.low())))
            &&& !Binary32::zero().less(pct[order[i]]) ==> a == b
        }),
{
    let n = min.len() as int;
    let j = order[i];
    let min2 = exact::reordered(min, order);
    let pct2 = exact::reordered(pct, order);
    let w = distribute::claims(avail, min, pct);
    let w2 = distribute::claims(avail, min2, pct2);
    let a = w[j];
    let b = w2[i];
    sums::lemma_claims(avail, min, pct);
    sums::lemma_claims(avail, min2, pct2);
    assert(rounded::proper(a) && rounded::proper(b));
    assert(a.at_most(number::total(w)) && b.at_most(number::total(w2)));
    assert(min2[i] == min[j] && pct2[i] == pct[j]);
    assert(rounded::proper(min[j]) && rounded::proper(pct[j]));
    rounding::lemma_gap(top.low());
    mul::lemma_mul_nonnegative(n, rounding::gap(top.low()));
    if Binary32::zero().less(pct[j]) {
        let y = pct[j].product(distribute::scale(pct)).product(avail);
        let y2 = pct[j].product(distribute::scale(pct2)).product(avail);
        assert(min[j].at_most(a) && min2[i].at_most(b));
        lemma_scale(pct);
        lemma_scale(pct2);
        assert(!y.infinite()) by {
            if y.infinite() {
                lemma_infinite_product(pct[j], distribute::scale(pct), avail);
            }
        }
        assert(!y2.infinite()) by {
            if y2.infinite() {
                lemma_infinite_product(pct[j], distribute::scale(pct2), avail);
            }
        }
        lemma_target(avail, pct, j, top);
        lemma_target(avail, pct2, i, top);
        lemma_exact_reordered(pct, order);
        let q = sums::greater(sums::exact_total(pct), power2::pow2(149) as int);
        let e = 110 * (n * rounding::gap(top.low()));
        let u = y.value();
        let v = y2.value();
        assert(sums::close(v, u, 2 * e)) by {
            assert(v - u <= 2 * e && u - v <= 2 * e) by (nonlinear_arith)
                requires
                    v * q - u * q <= 2 * (e * q),
                    u * q - v * q <= 2 * (e * q),
                    0 < q,
            ;
        }
        rounded::lemma_value(y);
        rounded::lemma_value(y2);
        rounded::lemma_value(min[j]);
        rounded::lemma_less_value(y, min[j]);
        rounded::lemma_less_value(y2, min[j]);
    }
}

/// An infinite part of the width is not negative: it would be claimed.
proof fn lemma_infinite_product(p: Binary32, s: Binary32, v: Binary32)
    requires
        rounded::proper(p),
        rounded::proper(s),
        rounded::proper(v),
        p.product(s).product(v).infinite(),
    ensures
        rounded::proper(p.product(s).product(v)),
{
    assert(!p.product(s).nan());
    rounded::lemma_product_proper(p, s);
    rounded::lemma_product_proper(p.product(s), v);
}

/// What all columns claim in two orders, exactly and as it is added up.
proof fn lemma_assigned_pair(
    avail: Binary32,
    min: Seq<Binary32>,
    max: Seq<Binary32>,
    pct: Seq<Binary32>,
    order: Seq<int>,
    top: Binary32,
)
    requires
        sound_both(avail, min, max, pct, order, top),
    ensures
        ({
            let w = distribute::claims(avail, min, pct);
            let w2 = distribute::claims(
                avail,
                exact::reordered(min, order),
                exact::reordered(pct, order),
            );
            let e = min.len() * (min.len() * rounding::gap(top.low()));
            &&& sums::close(sums::exact_total(w2), sums::exact_total(w), 220 * e)
            &&& sums::close(number::total(w2).value(), number::total(w).value(), 222 * e)
            &&& sums::close(
                number::total(w).value(),
                sums::exact_total(w),
                min.len() * rounding::gap(top.low()),
            )
            &&& sums::close(
                number::total(w2).value(),
                sums::exact_total(w2),
                min.len() * rounding::gap(top.low()),
            )
            &&& rounding::gap(top.low()) <= min.len() * rounding::gap(top.low()) <= e
        }),
{
    let n = min.len() as int;
    let min2 = exact::reordered(min, order);
    let pct2 = exact::reordered(pct, order);
    let w = distribute::claims(avail, min, pct);
    let w2 = distribute::claims(avail, min2, pct2);
    let g = rounding::gap(top.low());
    let ng = n * g;
    let e = n * ng;
    rounding::lemma_gap(top.low());
    assert(g <= ng && ng <= e) by (nonlinear_arith)
        requires
            ng == n * g,
            e == n * ng,
            1 <= n,
            1 <= g,
    ;
    assert forall|i: int| 0 <= i < n implies sums::close(
        #[trigger] sums::values(w2)[i],
        exact::reordered(sums::values(w), order)[i],
        220 * ng,
    ) by {
        assert(0 <= order[i] < n);
        lemma_claim_pair(avail, min, max, pct, order, top, i);
    }
    sums::lemma_whole_close(sums::values(w2), exact::reordered(sums::values(w), order), 220 * ng);
    assert(n * (220 * ng) == 220 * (n * ng)) by (nonlinear_arith);
    lemma_whole_reordered(sums::values(w), order);
    lemma_assigned(avail, min, pct, top);
    lemma_assigned(avail, min2, pct2, top);
}

/// What columns claim, as it is added up.
proof fn lemma_assigned(avail: Binary32, min: Seq<Binary32>, pct: Seq<Binary32>, top: Binary32)
    requires
        forall|i: int| 0 <= i < min.len() ==> rounded::proper(#[trigger] min[i]),
        number::total(distribute::claims(avail, min, pct)).at_most(top),
        top.finite(),
    ensures
        ({
            let w = distribute::claims(avail, min, pct);
            &&& number::total(w).finite()
            &&& rounded::proper(number::total(w))
            &&& sums::close(
                number::total(w).value(),
                sums::exact_total(w),
                min.len() * rounding::gap(top.low()),
            )
        }),
{
    let n = min.len() as int;
    let w = distribute::claims(avail, min, pct);
    sums::lemma_claims(avail, min, pct);
    rounded::lemma_total_proper(w);
    sums::law_total_error(w);
    rounding::lemma_gap_increases(number::total(w).low(), top.low());
    let a = rounding::gap(number::total(w).low());
    let b = rounding::gap(top.low());
    assert(n * a <= n * b) by (nonlinear_arith)
        requires
            a <= b,
            0 <= n,
    ;
}

/// A part is the amount times the weight over all weights, up to rounding.
proof fn lemma_part_near(take: Binary32, weight: Binary32, all: Binary32, top: Binary32)
    requires
        rounded::proper(take),
        rounded::proper(weight),
        take.at_most(all),
        weight.at_most(all),
        all.finite(),
        Binary32::zero().less(all),
        take.product(weight).quotient(all).finite(),
        top.finite(),
        Binary32::slack().at_most(top),
        take.at_most(top),
    ensures
        ({
            let p = take.product(weight).quotient(all);
            &&& rounded::proper(p)
            &&& 0 <= p.value()
            &&& p.size() <= 5 * top.size()
            &&& 0 < all.value()
            &&& 0 <= take.value() <= all.value()
            &&& 0 <= weight.value() <= all.value()
            &&& sums::close(
                all.value() * p.value(),
                take.value() * weight.value(),
                14 * (rounding::gap(top.low()) * all.value()),
            )
        }),
{
    let p = take.product(weight).quotient(all);
    let unit = power2::pow2(149) as int;
    let q = power2::pow2(75) as int;
    let h = power2::pow2(74) as int;
    let gap = rounding::gap(top.low());
    sums::lemma_part_error(take, weight, all);
    sums::lemma_wide_gap(top);
    rounded::lemma_value(take);
    rounded::lemma_value(weight);
    rounded::lemma_value(all);
    rounded::lemma_value(top);
    rounded::lemma_value(p);
    rounded::lemma_less_value(all, take);
    rounded::lemma_less_value(all, weight);
    rounded::lemma_less_value(top, take);
    rounding::lemma_gap(top.low());
    rounding::lemma_magnitude_increases(0, 0);
    power2::lemma_pow2_pos(74);
    power2::lemma_pow2_unfold(75);
    power2::lemma_pow2_adds(74, 75);
    power2::lemma2_to64();
    power2::lemma_pow2_adds(3, 75);
    power2::lemma_pow2_strictly_increases(78, 119);
    power2::lemma_pow2_strictly_increases(78, 142);
    power2::lemma_pow2_strictly_increases(74, 78);
    let t = take.size();
    let w = weight.size();
    let s = all.size();
    let v = p.size();
    let tw = t * w;
    let sv = s * v;
    let gs = gap * s;
    mul::lemma_mul_nonnegative(t, w);
    assert(Binary32::zero().low() == 0);
    assert(take.value() == t && weight.value() == w && all.value() == s && p.value() == v);
    assert(0 <= t <= s && 0 <= w <= s && 0 < s && 0 <= v);
    assert(8 * q <= gap && 8 * q <= top.size() && h < q);
    if s < h {
        assert(tw <= gs) by (nonlinear_arith)
            requires
                tw == t * w,
                gs == gap * s,
                0 <= t <= gap,
                0 <= w <= s,
        ;
        mul::lemma_mul_basics(s);
    } else {
        assert(unit <= q * s) by (nonlinear_arith)
            requires
                unit == h * q,
                h <= s,
                0 < q,
        ;
        let qs = q * s;
        assert(8 * qs <= gs && 8 * s <= gs) by (nonlinear_arith)
            requires
                qs == q * s,
                gs == gap * s,
                8 * q <= gap,
                8 <= gap,
                0 < s,
        ;
        assert(tw <= 0x100_0000 * gs) by (nonlinear_arith)
            requires
                tw == t * w,
                gs == gap * s,
                0 <= t <= 0x100_0000 * gap,
                0 <= w <= s,
        ;
        assert(v <= 4 * t + 4 * q + 2) by (nonlinear_arith)
            requires
                s * v <= 4 * (t * w) + 4 * unit + 2 * s,
                0 <= w <= s,
                0 <= t,
                unit <= q * s,
                0 < s,
        ;
    }
}

/// Two parts of amounts, weights and sums of weights that are close to each other.
proof fn lemma_ratio(
    t1: int,
    w1: int,
    s1: int,
    p1: int,
    t2: int,
    w2: int,
    s2: int,
    p2: int,
    f: int,
    a: int,
    b: int,
    c: int,
)
    requires
        0 <= t1 <= s1,
        0 <= t2 <= s2,
        0 <= w1 <= s1,
        0 <= w2 <= s2,
        0 < s1,
        0 < s2,
        sums::close(s1 * p1, t1 * w1, f * s1),
        sums::close(s2 * p2, t2 * w2, f * s2),
        sums::close(w1, w2, a),
        t1 * (s2 - s1) <= b * s1,
        t1 * (s1 - s2) <= b * s1,
        sums::close(t1, t2, c),
    ensures
        sums::close(p1, p2, 2 * f + a + b + c),
{
    let ss = s1 * s2;
    assert(0 < ss) by (nonlinear_arith)
        requires
            ss == s1 * s2,
            0 < s1,
            0 < s2,
    ;
    lemma_close_scaled(s1 * p1, t1 * w1, f * s1, s2);
    lemma_close_scaled(s2 * p2, t2 * w2, f * s2, s1);
    let x1 = s2 * (t1 * w1);
    let x2 = s1 * (t2 * w2);
    assert(s2 * (s1 * p1) == ss * p1 && s1 * (s2 * p2) == ss * p2 && f * s1 * s2 == f * ss && f * s2
        * s1 == f * ss) by (nonlinear_arith)
        requires
            ss == s1 * s2,
    ;
    // The first amounts and weights against the second ones.
    let y = s2 * (t1 * w2);
    let st = s2 * t1;
    assert(sums::close(x1, y, a * ss)) by {
        lemma_close_scaled(w1, w2, a, st);
        assert(st * w1 == x1 && st * w2 == y) by (nonlinear_arith)
            requires
                st == s2 * t1,
                x1 == s2 * (t1 * w1),
                y == s2 * (t1 * w2),
        ;
        assert(0 <= a);
        assert(a * st <= a * ss) by (nonlinear_arith)
            requires
                st == s2 * t1,
                ss == s1 * s2,
                0 <= t1 <= s1,
                0 < s2,
                0 <= a,
        ;
    }
    let d = s2 * t1 - s1 * t2;
    assert(sums::close(d, 0, (b + c) * s1)) by {
        lemma_close_scaled(t1, t2, c, s1);
        assert(d == t1 * (s2 - s1) + (s1 * t1 - s1 * t2)) by (nonlinear_arith)
            requires
                d == s2 * t1 - s1 * t2,
        ;
        assert(t1 * (s1 - s2) == -(t1 * (s2 - s1))) by (nonlinear_arith);
        assert((b + c) * s1 == b * s1 + c * s1) by (nonlinear_arith);
    }
    assert(sums::close(y, x2, (b + c) * ss)) by {
        lemma_close_scaled(d, 0, (b + c) * s1, w2);
        assert(w2 * d == y - x2) by (nonlinear_arith)
            requires
                d == s2 * t1 - s1 * t2,
                y == s2 * (t1 * w2),
                x2 == s1 * (t2 * w2),
        ;
        mul::lemma_mul_basics(w2);
        let bc = (b + c) * s1;
        assert(0 <= bc);
        assert(bc * w2 <= bc * s2) by (nonlinear_arith)
            requires
                0 <= bc,
                w2 <= s2,
        ;
        assert(bc * s2 == (b + c) * ss) by (nonlinear_arith)
            requires
                bc == (b + c) * s1,
                ss == s1 * s2,
        ;
    }
    let e = 2 * f + a + b + c;
    assert(e * ss == 2 * (f * ss) + a * ss + (b + c) * ss) by (nonlinear_arith)
        requires
            e == 2 * f + a + b + c,
    ;
    assert(p1 - p2 <= e && p2 - p1 <= e) by (nonlinear_arith)
        requires
            ss * p1 - ss * p2 <= e * ss,
            ss * p2 - ss * p1 <= e * ss,
            0 < ss,
    ;
}

/// Sums of the same items in two orders: how far apart they are.
proof fn lemma_sum_pair(n: int, s1: int, s2: int, exact: int, g1: int, g2: int, t: int, g: int)
    requires
        1 <= n <= 0xffff,
        0 <= s1,
        0 <= s2,
        sums::close(s1, exact, n * g1),
        sums::close(s2, exact, n * g2),
        0x80_0000 * (g1 - 1) <= s1,
        0x80_0000 * (g2 - 1) <= s2,
        0 <= t <= s1,
        t <= 0x100_0000 * g,
        3 <= g,
    ensures
        t * (s2 - s1) <= 7 * (n * g) * s1,
        t * (s1 - s2) <= 7 * (n * g) * s1,
        s1 <= 0x100_0000 * g || s2 <= 0x100_0000 * g ==> sums::close(s1, s2, 7 * (n * g)),
{
    let d = 0x80_0000int;
    let ns1 = n * s1;
    let ns2 = n * s2;
    assert(d * (n * g1) <= ns1 + d * n && d * (n * g2) <= ns2 + d * n) by (nonlinear_arith)
        requires
            d * (g1 - 1) <= s1,
            d * (g2 - 1) <= s2,
            ns1 == n * s1,
            ns2 == n * s2,
            1 <= n,
    ;
    assert(sums::close(d * s1, d * s2, ns1 + ns2 + 2 * d * n));
    assert(128 * ns1 <= d * s1 && 128 * ns2 <= d * s2) by (nonlinear_arith)
        requires
            ns1 == n * s1,
            ns2 == n * s2,
            n <= 0xffff,
            0 <= s1,
            0 <= s2,
            d == 0x80_0000,
    ;
    assert(s2 <= 2 * s1 + 3 * n && s1 <= 2 * s2 + 3 * n);
    assert(ns2 <= 2 * ns1 + 3 * (n * n) && ns1 <= 2 * ns2 + 3 * (n * n)) by (nonlinear_arith)
        requires
            ns1 == n * s1,
            ns2 == n * s2,
            s2 <= 2 * s1 + 3 * n,
            s1 <= 2 * s2 + 3 * n,
            1 <= n,
    ;
    assert(3 * (n * n) <= d * n) by (nonlinear_arith)
        requires
            1 <= n <= 0xffff,
            d == 0x80_0000,
    ;
    let ng = n * g;
    assert(3 * n <= ng) by (nonlinear_arith)
        requires
            ng == n * g,
            3 <= g,
            1 <= n,
    ;
    assert(sums::close(d * s1, d * s2, 3 * ns1 + 3 * d * n));
    assert(sums::close(d * s1, d * s2, 3 * ns2 + 3 * d * n));
    let e = 3 * ns1 + 3 * d * n;
    lemma_close_scaled(d * s1, d * s2, e, t);
    let x = t * s1 - t * s2;
    assert(t * (d * s1) - t * (d * s2) == d * x) by (nonlinear_arith)
        requires
            x == t * s1 - t * s2,
    ;
    assert(t * (s1 - s2) == x && t * (s2 - s1) == -x) by (nonlinear_arith)
        requires
            x == t * s1 - t * s2,
    ;
    let ngs = ng * s1;
    assert(e * t <= 7 * d * ngs) by {
        assert(ns1 * t <= 2 * d * ngs) by (nonlinear_arith)
            requires
                ns1 == n * s1,
                ngs == ng * s1,
                ng == n * g,
                0 <= t <= 2 * d * g,
                0 <= s1,
                1 <= n,
        ;
        assert(n * t <= n * s1) by (nonlinear_arith)
            requires
                t <= s1,
                1 <= n,
        ;
        assert(3 * (n * s1) <= ngs) by (nonlinear_arith)
            requires
                ngs == ng * s1,
                3 * n <= ng,
                0 <= s1,
        ;
        assert(e * t == 3 * (ns1 * t) + 3 * d * (n * t)) by (nonlinear_arith)
            requires
                e == 3 * ns1 + 3 * d * n,
                d == 0x80_0000,
        ;
    }
    assert(7 * (n * g) * s1 == 7 * ngs) by (nonlinear_arith)
        requires
            ngs == ng * s1,
            ng == n * g,
    ;
    if s1 <= 2 * d * g {
        assert(ns1 <= 2 * d * ng) by (nonlinear_arith)
            requires
                ns1 == n * s1,
                ng == n * g,
                s1 <= 2 * d * g,
                1 <= n,
        ;
    }
    if s2 <= 2 * d * g {
        assert(ns2 <= 2 * d * ng) by (nonlinear_arith)
            requires
                ns2 == n * s2,
                ng == n * g,
                s2 <= 2 * d * g,
                1 <= n,
        ;
    }
}

/// A sum of two numbers that are not much larger than `top`.
proof fn lemma_sum_near(a: Binary32, b: Binary32, top: Binary32)
    requires
        rounded::proper(a),
        rounded::proper(b),
        a.sum(b).finite(),
        top.finite(),
        0x80_0000 <= top.low(),
    ensures
        ({
            let x = a.value() + b.value();
            let gap = rounding::gap(top.low());
            &&& rounded::proper(a.sum(b))
            &&& x <= 8 * top.size() ==> sums::close(a.sum(b).value(), x, 8 * gap)
                && a.sum(b).size() <= 8 * top.size()
            &&& x <= 16 * top.size() ==> sums::close(a.sum(b).value(), x, 16 * gap)
        }),
{
    sums::lemma_sum_error(a, b);
    rounded::lemma_value(a);
    rounded::lemma_value(b);
    rounded::lemma_value(top);
    rounded::lemma_value(a.sum(b));
    let x = a.value() + b.value();
    if x > 0 {
        sums::lemma_gap_near(x, top);
    } else {
        rounding::lemma_gap_increases(0, top.low());
        rounding::lemma_round_zero(1);
        rounded::lemma_signed(a.negative() && b.negative(), 0);
    }
}

/// A sum is positive where the sum without rounding is.
proof fn lemma_positive_total(s: Seq<Binary32>)
    requires
        forall|i: int| 0 <= i < s.len() ==> rounded::proper(#[trigger] s[i]),
        number::total(s).finite(),
    ensures
        Binary32::zero().less(number::total(s)) <==> sums::exact_total(s) > 0,
{
    let all = number::total(s);
    let none = Seq::new(s.len(), |i: int| 0int);
    rounded::lemma_total_proper(s);
    assert forall|i: int| 0 <= i < s.len() implies (#[trigger] s[i]).finite() && 0
        <= s[i].value() by {
        assert(rounded::proper(s[i]));
        rounded::lemma_total_term(s, i);
        rounded::lemma_value(s[i]);
    }
    if Binary32::zero().less(all) {
        if sums::exact_total(s) <= 0 {
            assert forall|i: int| 0 <= i < s.len() implies (#[trigger] s[i]).is_zero() by {
                assert forall|k: int| 0 <= k < s.len() implies none[k]
                    - #[trigger] sums::values(s)[k] <= 0 by {
                    assert(0 <= s[k].value());
                }
                sums::lemma_whole_excess(sums::values(s), none, i, 0);
                sums::lemma_whole_zero(none);
                assert(rounded::proper(s[i]) && s[i].finite());
                rounded::lemma_value(s[i]);
            }
            monotone::lemma_total_zero(s);
        }
    } else {
        assert forall|i: int| 0 <= i < s.len() implies #[trigger] sums::values(s)[i] == 0 by {
            assert(rounded::proper(s[i]) && s[i].finite());
            rounded::lemma_total_term(s, i);
            rounded::lemma_value(s[i]);
        }
        sums::lemma_whole_zero(sums::values(s));
    }
}

/// The number of columns that stretch.
spec fn targets(pct: Seq<Binary32>) -> int {
    let n = pct.len() as int;
    if distribute::plain_columns(pct, n) == 0 {
        n
    } else {
        distribute::plain_columns(pct, n)
    }
}

/// One for each column without a percentage.
spec fn marks(pct: Seq<Binary32>) -> Seq<int> {
    Seq::new(
        pct.len(),
        |i: int|
            if pct[i].is_zero() {
                1int
            } else {
                0int
            },
    )
}

/// The marks of the first columns count those without a percentage.
proof fn lemma_marks(pct: Seq<Binary32>, k: int)
    requires
        0 <= k <= pct.len(),
    ensures
        distribute::plain_columns(pct, k) == sums::whole(marks(pct).take(k)),
    decreases k,
{
    if k > 0 {
        lemma_marks(pct, k - 1);
        assert(marks(pct).take(k).drop_last() =~= marks(pct).take(k - 1));
    }
}

/// The order of columns does not matter for how many have no percentage.
proof fn lemma_plain_reordered(pct: Seq<Binary32>, order: Seq<int>)
    requires
        exact::is_order(order, pct.len() as int),
    ensures
        distribute::plain_columns(exact::reordered(pct, order), pct.len() as int)
            == distribute::plain_columns(pct, pct.len() as int),
{
    let pct2 = exact::reordered(pct, order);
    lemma_marks(pct, pct.len() as int);
    lemma_marks(pct2, pct.len() as int);
    assert(marks(pct).take(pct.len() as int) =~= marks(pct));
    assert(marks(pct2).take(pct.len() as int) =~= exact::reordered(marks(pct), order));
    lemma_whole_reordered(marks(pct), order);
}

/// What a column gets of a width that is larger than all claims: its part of the
/// growth, its share of what is left, and what is left.
proof fn lemma_filled_run(
    avail: Binary32,
    min: Seq<Binary32>,
    max: Seq<Binary32>,
    pct: Seq<Binary32>,
    top: Binary32,
    i: int,
) -> (run: (int, int, int))
    requires
        sound(avail, min, max, pct, top),
        0 <= i < min.len(),
        number::total(distribute::claims(avail, min, pct)).sum(Binary32::slack()).less(avail),
    ensures
        ({
            let n = min.len() as int;
            let w = distribute::claims(avail, min, pct);
            let gap = rounding::gap(top.low());
            let extra = avail.difference(number::total(w));
            let grow = distribute::room(w, max, pct);
            let growth = number::total(grow);
            let take = extra.smaller(growth);
            let m = targets(pct);
            let (p, h, left) = run;
            &&& sums::close(
                distribute::distributed(avail, min, max, pct)[i].value(),
                w[i].value() + p + h,
                24 * gap,
            )
            &&& 0 <= extra.value() <= top.size()
            &&& sums::close(extra.value(), avail.value() - number::total(w).value(), gap)
            &&& 0 <= growth.value()
            &&& forall|k: int| 0 <= k < n ==> rounded::proper(#[trigger] grow[k])
            &&& Binary32::zero().less(growth) ==> {
                &&& 0 < growth.value()
                &&& 0 <= grow[i].value() <= growth.value()
                &&& take.value() == -sums::greater(-extra.value(), -growth.value())
                &&& sums::close(
                    growth.value() * p,
                    take.value() * grow[i].value(),
                    14 * (gap * growth.value()),
                )
                &&& sums::close(left, extra.value() - take.value(), gap)
            }
            &&& !Binary32::zero().less(growth) ==> p == 0 && left == extra.value()
            &&& 1 <= m <= n
            &&& if distribute::stretches(pct, n, i) {
                sums::close(h * m, left, m * gap)
            } else {
                h == 0
            }
        }),
{
    let n = min.len() as int;
    let w = distribute::claims(avail, min, pct);
    let assigned = number::total(w);
    let slack = Binary32::slack();
    let extra = avail.difference(assigned);
    let grow = distribute::room(w, max, pct);
    let growth = number::total(grow);
    let gap = rounding::gap(top.low());
    let m = targets(pct);
    let r = distribute::distributed(avail, min, max, pct);
    sums::lemma_claims(avail, min, pct);
    sums::lemma_wide_gap(top);
    rounded::lemma_total_proper(w);
    rounded::lemma_sum_proper(assigned, slack);
    rounded::lemma_value(top);
    rounded::lemma_value(avail);
    rounded::lemma_value(assigned);
    sums::lemma_difference_error(avail, assigned);
    rounding::lemma_gap_increases(avail.low(), top.low());
    rounding::lemma_gap(top.low());
    rounded::lemma_value(extra);
    rounding::lemma_gap_increases(extra.low(), top.low());
    rounded::lemma_less_value(top, extra);
    rounded::lemma_plain_columns(pct, n);
    assert forall|k: int| 0 <= k < n implies rounded::proper(#[trigger] grow[k]) by {
        rounded::lemma_larger_proper(max[k].difference(w[k]));
    }
    rounded::lemma_total_proper(grow);
    rounded::lemma_value(growth);
    let some = Binary32::zero().less(growth);
    let take = extra.smaller(growth);
    let part = distribute::part(take, grow[i], grow);
    let wider = if some {
        distribute::grown(w, take, grow)
    } else {
        w
    };
    let left = if some {
        extra.difference(take)
    } else {
        extra
    };
    let stretch = Binary32::zero().less(left);
    let share = left.quotient(Binary32::count(m));
    assert(r == if stretch {
        distribute::stretched(wider, left, pct)
    } else {
        wider
    });
    assert(r[i].finite());
    let moves = stretch && distribute::stretches(pct, n, i);
    assert(r[i] == if moves {
        wider[i].sum(share)
    } else {
        wider[i]
    });
    assert(wider[i].finite());
    assert(rounded::proper(w[i]) && w[i].at_most(assigned));
    rounded::lemma_value(w[i]);
    rounded::lemma_less_value(top, w[i]);
    let p = if some {
        part.value()
    } else {
        0
    };
    if some {
        rounded::lemma_less_value(growth, extra);
        rounded::lemma_total_term(grow, i);
        assert(wider[i] == w[i].sum(part));
        lemma_part_near(take, grow[i], growth, top);
        rounded::lemma_value(part);
        lemma_sum_near(w[i], part, top);
        sums::lemma_difference_error(extra, take);
    }
    rounded::lemma_value(left);
    rounded::lemma_less_value(top, left);
    rounding::lemma_gap_increases(left.low(), top.low());
    sums::lemma_share(left, m);
    rounded::lemma_value(share);
    rounded::lemma_value(wider[i]);
    let h = if moves {
        share.value()
    } else {
        0
    };
    if moves {
        lemma_sum_near(wider[i], share, top);
    }
    if distribute::stretches(pct, n, i) {
        let each = rounding::gap(left.low());
        assert(m * each <= m * gap && 0 <= m * gap) by (nonlinear_arith)
            requires
                0 <= each <= gap,
                1 <= m,
        ;
        if !stretch {
            assert(left.low() == 0);
            mul::lemma_mul_basics(m);
        }
    }
    (p, h, left.value())
}

/// The order of columns does not matter for how far each can grow.
proof fn lemma_room_reordered(
    avail: Binary32,
    min: Seq<Binary32>,
    max: Seq<Binary32>,
    pct: Seq<Binary32>,
    order: Seq<int>,
    top: Binary32,
)
    requires
        sound_both(avail, min, max, pct, order, top),
    ensures
        distribute::room(
            distribute::claims(avail, exact::reordered(min, order), exact::reordered(pct, order)),
            exact::reordered(max, order),
            exact::reordered(pct, order),
        ) == exact::reordered(
            distribute::room(distribute::claims(avail, min, pct), max, pct),
            order,
        ),
{
    let max2 = exact::reordered(max, order);
    let pct2 = exact::reordered(pct, order);
    let w = distribute::claims(avail, min, pct);
    let w2 = distribute::claims(avail, exact::reordered(min, order), pct2);
    let grow = distribute::room(w, max, pct);
    let grow2 = distribute::room(w2, max2, pct2);
    assert forall|i: int| 0 <= i < min.len() implies #[trigger] grow2[i] == grow[order[i]] by {
        let j = order[i];
        assert(pct2[i] == pct[j] && max2[i] == max[j]);
        assert(rounded::proper(pct[j]));
        if pct[j].is_zero() {
            lemma_claim_pair(avail, min, max, pct, order, top, i);
        }
    }
    assert(grow2 =~= exact::reordered(grow, order));
}

/// What is added to a column in two orders, where the width is larger than all claims.
proof fn lemma_filled_pair(
    avail: Binary32,
    min: Seq<Binary32>,
    max: Seq<Binary32>,
    pct: Seq<Binary32>,
    order: Seq<int>,
    top: Binary32,
    i: int,
)
    requires
        sound_both(avail, min, max, pct, order, top),
        0 <= i < min.len(),
        number::total(distribute::claims(avail, min, pct)).sum(Binary32::slack()).less(avail),
        number::total(
            distribute::claims(avail, exact::reordered(min, order), exact::reordered(pct, order)),
        ).sum(Binary32::slack()).less(avail),
    ensures
        sums::close(
            distribute::distributed(
                avail,
                exact::reordered(min, order),
                exact::reordered(max, order),
                exact::reordered(pct, order),
            )[i].value(),
            distribute::distributed(avail, min, max, pct)[order[i]].value(),
            1024 * (min.len() * (min.len() * rounding::gap(top.low()))),
        ),
{
    let n = min.len() as int;
    let j = order[i];
    let min2 = exact::reordered(min, order);
    let max2 = exact::reordered(max, order);
    let pct2 = exact::reordered(pct, order);
    let w = distribute::claims(avail, min, pct);
    let w2 = distribute::claims(avail, min2, pct2);
    let grow = distribute::room(w, max, pct);
    let grow2 = distribute::room(w2, max2, pct2);
    let growth = number::total(grow);
    let growth2 = number::total(grow2);
    let extra = avail.difference(number::total(w));
    let extra2 = avail.difference(number::total(w2));
    let gap = rounding::gap(top.low());
    let g = n * gap;
    let e = n * g;
    lemma_assigned_pair(avail, min, max, pct, order, top);
    lemma_claim_pair(avail, min, max, pct, order, top, i);
    lemma_room_reordered(avail, min, max, pct, order, top);
    lemma_plain_reordered(pct, order);
    lemma_exact_reordered(grow, order);
    let (p1, h1, l1) = lemma_filled_run(avail, min, max, pct, top, j);
    let (p2, h2, l2) = lemma_filled_run(avail, min2, max2, pct2, top, i);
    lemma_positive_total(grow);
    lemma_positive_total(grow2);
    sums::lemma_wide_gap(top);
    rounding::lemma_gap(top.low());
    power2::lemma2_to64();
    power2::lemma_pow2_strictly_increases(2, 119);
    let s1 = growth.value();
    let s2 = growth2.value();
    let t1 = extra.smaller(growth).value();
    let t2 = extra2.smaller(growth2).value();
    assert(grow2[i] == grow[j] && pct2[i] == pct[j]);
    let m = targets(pct);
    assert(targets(pct2) == m);
    assert(distribute::stretches(pct2, n, i) == distribute::stretches(pct, n, j));
    assert(sums::close(extra.value(), extra2.value(), 224 * e));
    assert(sums::close(p1, p2, 266 * e) && sums::close(l1, l2, 457 * e)) by {
        if Binary32::zero().less(growth) {
            sums::law_total_error(grow);
            sums::law_total_error(grow2);
            rounded::lemma_total_proper(grow);
            rounded::lemma_total_proper(grow2);
            rounding::lemma_gap(growth.low());
            rounding::lemma_gap(growth2.low());
            lemma_sum_pair(
                n,
                s1,
                s2,
                sums::exact_total(grow),
                rounding::gap(growth.low()),
                rounding::gap(growth2.low()),
                t1,
                gap,
            );
            assert(sums::close(t1, t2, 231 * e));
            let x = grow[j].value();
            mul::lemma_mul_is_associative(14, gap, s1);
            mul::lemma_mul_is_associative(14, gap, s2);
            lemma_ratio(t1, x, s1, p1, t2, x, s2, p2, 14 * gap, 0, 7 * g, 231 * e);
        }
    }
    assert(sums::close(h1, h2, 459 * e)) by {
        if distribute::stretches(pct, n, j) {
            let a = 457 * e;
            assert(h1 - h2 <= a + 2 * gap && h2 - h1 <= a + 2 * gap) by (nonlinear_arith)
                requires
                    h1 * m - h2 * m <= a + 2 * (m * gap),
                    h2 * m - h1 * m <= a + 2 * (m * gap),
                    1 <= m,
                    0 <= a,
                    0 <= gap,
            ;
        }
    }
}

/// What a column loses of a width that is smaller than all claims.
proof fn lemma_relieved_run(
    avail: Binary32,
    min: Seq<Binary32>,
    max: Seq<Binary32>,
    pct: Seq<Binary32>,
    top: Binary32,
    i: int,
) -> (p: int)
    requires
        sound(avail, min, max, pct, top),
        0 <= i < min.len(),
        avail.sum(Binary32::slack()).less(number::total(distribute::claims(avail, min, pct))),
    ensures
        ({
            let n = min.len() as int;
            let w = distribute::claims(avail, min, pct);
            let gap = rounding::gap(top.low());
            let excess = number::total(w).difference(avail);
            let give = distribute::spare(w, min);
            let all = number::total(give);
            let take = excess.smaller(all);
            &&& sums::close(
                distribute::distributed(avail, min, max, pct)[i].value(),
                w[i].value() - p,
                8 * gap,
            )
            &&& 0 <= excess.value()
            &&& sums::close(excess.value(), number::total(w).value() - avail.value(), gap)
            &&& 0 <= all.value()
            &&& sums::close(
                all.value(),
                sums::exact_total(w) - sums::exact_total(min),
                2 * (n * gap),
            )
            &&& sums::close(give[i].value(), w[i].value() - min[i].value(), gap)
            &&& if Binary32::zero().less(all) {
                &&& 0 < all.value()
                &&& 0 <= p
                &&& 0 <= give[i].value() <= all.value()
                &&& take.value() == -sums::greater(-excess.value(), -all.value())
                &&& sums::close(
                    all.value() * p,
                    take.value() * give[i].value(),
                    14 * (gap * all.value()),
                )
            } else {
                all.value() == 0 && p == 0
            }
        }),
{
    let n = min.len() as int;
    let w = distribute::claims(avail, min, pct);
    let assigned = number::total(w);
    let slack = Binary32::slack();
    let excess = assigned.difference(avail);
    let give = distribute::spare(w, min);
    let all = number::total(give);
    let take = excess.smaller(all);
    let gap = rounding::gap(top.low());
    let r = distribute::distributed(avail, min, max, pct);
    sums::lemma_claims(avail, min, pct);
    sums::lemma_wide_gap(top);
    rounded::lemma_total_proper(w);
    rounded::lemma_sum_proper(avail, slack);
    if assigned.sum(slack).less(avail) {
        rounded::lemma_sum_proper(assigned, slack);
    }
    rounded::lemma_value(top);
    rounded::lemma_value(avail);
    rounded::lemma_value(assigned);
    sums::lemma_difference_error(assigned, avail);
    rounding::lemma_gap_increases(assigned.low(), top.low());
    rounding::lemma_gap(top.low());
    rounded::lemma_value(excess);
    assert forall|k: int| 0 <= k < n implies rounded::proper(#[trigger] give[k])
        && give[k].finite() && give[k].at_most(w[k]) && sums::close(
        give[k].value(),
        w[k].value() - min[k].value(),
        gap,
    ) by {
        assert(rounded::proper(w[k]) && rounded::proper(min[k]));
        assert(w[k].at_most(assigned) && min[k].at_most(w[k]));
        rounded::lemma_spare(w[k], min[k]);
        rounded::lemma_value(w[k]);
        rounded::lemma_value(min[k]);
        rounded::lemma_value(give[k]);
        rounding::lemma_gap_increases(w[k].low(), top.low());
    }
    sums::lemma_total_increases(give, w);
    rounded::lemma_total_proper(give);
    sums::law_total_error(give);
    rounding::lemma_gap_increases(all.low(), top.low());
    assert(n * rounding::gap(all.low()) <= n * gap) by (nonlinear_arith)
        requires
            rounding::gap(all.low()) <= gap,
            1 <= n,
    ;
    let room = Seq::new(w.len(), |k: int| w[k].value() - min[k].value());
    sums::lemma_whole_sum(sums::values(min), room, sums::values(w));
    assert forall|k: int| 0 <= k < n implies sums::close(
        #[trigger] sums::values(give)[k],
        room[k],
        gap,
    ) by {
        assert(rounded::proper(give[k]));
    }
    sums::lemma_whole_close(sums::values(give), room, gap);
    rounded::lemma_value(all);
    assert(rounded::proper(give[i]));
    rounded::lemma_value(give[i]);
    assert(r[i].finite());
    if Binary32::zero().less(all) {
        let part = distribute::part(take, give[i], give);
        assert(r[i] == w[i].difference(part));
        assert(rounded::proper(w[i]) && w[i].at_most(assigned));
        rounded::lemma_less_value(all, excess);
        rounded::lemma_total_term(give, i);
        lemma_part_near(take, give[i], all, top);
        rounded::lemma_value(w[i]);
        rounded::lemma_value(part);
        rounded::lemma_less_value(top, w[i]);
        sums::lemma_any_difference_error(w[i], part, top);
        part.value()
    } else {
        assert(r[i] == w[i]);
        0
    }
}

/// What is taken from a column in two orders, where the width is smaller than all
/// claims.
proof fn lemma_relieved_pair(
    avail: Binary32,
    min: Seq<Binary32>,
    max: Seq<Binary32>,
    pct: Seq<Binary32>,
    order: Seq<int>,
    top: Binary32,
    i: int,
)
    requires
        sound_both(avail, min, max, pct, order, top),
        0 <= i < min.len(),
        avail.sum(Binary32::slack()).less(number::total(distribute::claims(avail, min, pct))),
        avail.sum(Binary32::slack()).less(
            number::total(
                distribute::claims(
                    avail,
                    exact::reordered(min, order),
                    exact::reordered(pct, order),
                ),
            ),
        ),
    ensures
        sums::close(
            distribute::distributed(
                avail,
                exact::reordered(min, order),
                exact::reordered(max, order),
                exact::reordered(pct, order),
            )[i].value(),
            distribute::distributed(avail, min, max, pct)[order[i]].value(),
            1024 * (min.len() * (min.len() * rounding::gap(top.low()))),
        ),
{
    let n = min.len() as int;
    let j = order[i];
    let min2 = exact::reordered(min, order);
    let max2 = exact::reordered(max, order);
    let pct2 = exact::reordered(pct, order);
    let w = distribute::claims(avail, min, pct);
    let w2 = distribute::claims(avail, min2, pct2);
    let give = distribute::spare(w, min);
    let give2 = distribute::spare(w2, min2);
    let all = number::total(give);
    let all2 = number::total(give2);
    let excess = number::total(w).difference(avail);
    let excess2 = number::total(w2).difference(avail);
    let gap = rounding::gap(top.low());
    let g = n * gap;
    let e = n * g;
    lemma_assigned_pair(avail, min, max, pct, order, top);
    lemma_claim_pair(avail, min, max, pct, order, top, i);
    lemma_exact_reordered(min, order);
    let p1 = lemma_relieved_run(avail, min, max, pct, top, j);
    let p2 = lemma_relieved_run(avail, min2, max2, pct2, top, i);
    rounding::lemma_gap(top.low());
    assert(min2[i] == min[j]);
    let s1 = all.value();
    let s2 = all2.value();
    let t1 = excess.smaller(all).value();
    let t2 = excess2.smaller(all2).value();
    let x1 = give[j].value();
    let x2 = give2[i].value();
    let some = Binary32::zero().less(all);
    let some2 = Binary32::zero().less(all2);
    assert(sums::close(s1, s2, 224 * e));
    assert(sums::close(x1, x2, 222 * e));
    assert(sums::close(p1, p2, 698 * e)) by {
        if some && some2 {
            let b = 224 * e;
            assert(t1 * (s2 - s1) <= b * s1 && t1 * (s1 - s2) <= b * s1) by (nonlinear_arith)
                requires
                    s2 - s1 <= b,
                    s1 - s2 <= b,
                    0 <= t1 <= s1,
            ;
            mul::lemma_mul_is_associative(14, gap, s1);
            mul::lemma_mul_is_associative(14, gap, s2);
            lemma_ratio(t1, x1, s1, p1, t2, x2, s2, p2, 14 * gap, 222 * e, 224 * e, 224 * e);
        } else if some {
            lemma_part_most(t1, x1, s1, p1, gap);
        } else if some2 {
            lemma_part_most(t2, x2, s2, p2, gap);
        }
    }
}

/// A part is no larger than its weight, up to rounding.
proof fn lemma_part_most(t: int, w: int, s: int, p: int, gap: int)
    requires
        0 <= t <= s,
        0 <= w,
        0 < s,
        sums::close(s * p, t * w, 14 * (gap * s)),
    ensures
        p <= w + 14 * gap,
{
    assert(p <= w + 14 * gap) by (nonlinear_arith)
        requires
            s * p <= t * w + 14 * (gap * s),
            0 <= t <= s,
            0 <= w,
            0 < s,
    ;
}

/// How far a column's width is from its claim.
proof fn lemma_far(
    avail: Binary32,
    min: Seq<Binary32>,
    max: Seq<Binary32>,
    pct: Seq<Binary32>,
    top: Binary32,
    i: int,
)
    requires
        sound(avail, min, max, pct, top),
        0 <= i < min.len(),
    ensures
        ({
            let w = distribute::claims(avail, min, pct);
            let assigned = number::total(w);
            let slack = Binary32::slack();
            let gap = rounding::gap(top.low());
            let e = min.len() * gap;
            let d = distribute::distributed(avail, min, max, pct)[i].value() - w[i].value();
            let free = avail.value() - assigned.value();
            if assigned.sum(slack).less(avail) {
                0 <= d <= free + 59 * e && 0 <= free
            } else if avail.sum(slack).less(assigned) {
                free - 59 * e <= d <= 0 && free <= 0
            } else {
                d == 0 && sums::close(free, 0, slack.value() + 8 * gap)
            }
        }),
{
    let n = min.len() as int;
    let w = distribute::claims(avail, min, pct);
    let assigned = number::total(w);
    let slack = Binary32::slack();
    let gap = rounding::gap(top.low());
    let r = distribute::distributed(avail, min, max, pct);
    lemma_assigned(avail, min, pct, top);
    sums::lemma_claims(avail, min, pct);
    rounded::lemma_value(avail);
    rounded::lemma_value(assigned);
    rounding::lemma_gap_increases(avail.low(), top.low());
    rounding::lemma_gap_increases(assigned.low(), top.low());
    assert(n * rounding::gap(avail.low()) <= n * gap && n * rounding::gap(assigned.low()) <= n
        * gap) by (nonlinear_arith)
        requires
            rounding::gap(avail.low()) <= gap,
            rounding::gap(assigned.low()) <= gap,
            1 <= n,
    ;
    assert forall|k: int| 0 <= k < n implies (#[trigger] w[k]).finite() && min[k].at_most(
        w[k],
    ) by {
        assert(rounded::proper(w[k]) && w[k].at_most(assigned));
    }
    if assigned.sum(slack).less(avail) {
        sums::lemma_filled(avail, min, max, pct);
        rounded::lemma_less_value(avail, assigned);
        rounded::lemma_sum_proper(assigned, slack);
        rounded::lemma_difference_proper(avail, assigned);
        let extra = avail.difference(assigned);
        assert forall|k: int| 0 <= k < n implies sums::values(w)[k]
            - #[trigger] sums::values(r)[k] <= 0 by {
            assert(r[k].finite() && w[k].finite());
            rounded::lemma_filled(w, extra, max, pct, k);
            rounded::lemma_less_value(r[k], w[k]);
        }
        sums::lemma_whole_excess(sums::values(r), sums::values(w), i, 0);
        assert(sums::values(w)[i] - sums::values(r)[i] <= 0);
    } else if avail.sum(slack).less(assigned) {
        sums::lemma_relieved(avail, min, max, pct);
        rounded::lemma_less_value(assigned, avail);
        assert forall|k: int| 0 <= k < n implies sums::values(r)[k]
            - #[trigger] sums::values(w)[k] <= 0 by {
            assert(r[k].finite() && w[k].finite());
            assert(rounded::proper(min[k]));
            rounded::law_relief(avail, min, max, pct, k);
            rounded::lemma_less_value(w[k], r[k]);
        }
        sums::lemma_whole_excess(sums::values(w), sums::values(r), i, 0);
        assert(sums::values(r)[i] - sums::values(w)[i] <= 0);
    } else {
        sums::lemma_within_slack(avail, assigned, top);
        sums::lemma_within_slack(assigned, avail, top);
    }
}

/// The order of columns does not matter, up to the errors of as many sums as there are
/// columns: a column gets the same width at any place. The slack comes on top where the
/// claims of all columns are within it of the width in one order and not in the other.
pub proof fn law_column_order(
    avail: Binary32,
    min: Seq<Binary32>,
    max: Seq<Binary32>,
    pct: Seq<Binary32>,
    order: Seq<int>,
    top: Binary32,
    i: int,
)
    requires
        sound_both(avail, min, max, pct, order, top),
        0 <= i < min.len(),
    ensures
        ({
            let slack = Binary32::slack();
            let assigned = number::total(distribute::claims(avail, min, pct));
            let assigned2 = number::total(
                distribute::claims(
                    avail,
                    exact::reordered(min, order),
                    exact::reordered(pct, order),
                ),
            );
            let width = distribute::distributed(avail, min, max, pct)[order[i]].value();
            let width2 = distribute::distributed(
                avail,
                exact::reordered(min, order),
                exact::reordered(max, order),
                exact::reordered(pct, order),
            )[i].value();
            let error = 1024 * (min.len() * (min.len() * rounding::gap(top.low())));
            let alike = assigned.sum(slack).less(avail) == assigned2.sum(slack).less(avail)
                && avail.sum(slack).less(assigned) == avail.sum(slack).less(assigned2);
            &&& sums::close(width2, width, error + slack.value())
            &&& alike ==> sums::close(width2, width, error)
        }),
{
    let j = order[i];
    let min2 = exact::reordered(min, order);
    let max2 = exact::reordered(max, order);
    let pct2 = exact::reordered(pct, order);
    let slack = Binary32::slack();
    let assigned = number::total(distribute::claims(avail, min, pct));
    let assigned2 = number::total(distribute::claims(avail, min2, pct2));
    let fills = assigned.sum(slack).less(avail);
    let fills2 = assigned2.sum(slack).less(avail);
    let shrinks = avail.sum(slack).less(assigned);
    let shrinks2 = avail.sum(slack).less(assigned2);
    lemma_assigned_pair(avail, min, max, pct, order, top);
    lemma_claim_pair(avail, min, max, pct, order, top, i);
    sums::lemma_wide_gap(slack);
    rounded::lemma_value(slack);
    rounding::lemma_gap(top.low());
    if fills && fills2 {
        lemma_filled_pair(avail, min, max, pct, order, top, i);
    } else if !fills && !fills2 && shrinks && shrinks2 {
        lemma_relieved_pair(avail, min, max, pct, order, top, i);
    } else {
        lemma_far(avail, min, max, pct, top, j);
        lemma_far(avail, min2, max2, pct2, top, i);
    }
}

}
