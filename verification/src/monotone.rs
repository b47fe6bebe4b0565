//! How binary32 widths change with what they are computed from.

use vstd::arithmetic::mul;
use vstd::arithmetic::power2;
use vstd::prelude::*;

use crate::binary32::Binary32;
use crate::distribute;
use crate::number;
use crate::number::Number;
use crate::rounded;
use crate::rounding;
use crate::rounding::INFINITE;

verus! {

/// The rank of the number nearest to an integer count of units.
spec fn settled(x: int) -> int {
    if x < 0 {
        -rounding::round(-x, 1)
    } else {
        rounding::round(x, 1)
    }
}

proof fn lemma_settled_increases(x: int, y: int)
    requires
        x <= y,
    ensures
        settled(x) <= settled(y),
{
    if 0 <= x {
        rounding::lemma_round_increases(x, y, 1);
    } else {
        rounding::lemma_round_below(-x, 1);
        if y < 0 {
            rounding::lemma_round_increases(-y, -x, 1);
        } else {
            rounding::lemma_round_below(y, 1);
        }
    }
}

/// The rank of a sum of finite numbers.
proof fn lemma_sum_rank(a: Binary32, b: Binary32)
    requires
        a.finite(),
        b.finite(),
    ensures
        !a.sum(b).nan(),
        a.sum(b).rank() == settled(a.value() + b.value()),
{
    let x = a.value() + b.value();
    if x > 0 {
        rounding::lemma_round_below(x, 1);
        rounded::lemma_signed(false, rounding::round(x, 1));
    } else if x < 0 {
        rounding::lemma_round_below(-x, 1);
        rounded::lemma_signed(true, rounding::round(-x, 1));
    } else {
        rounding::lemma_round_zero(1);
        rounded::lemma_signed(a.negative() && b.negative(), 0);
    }
}

/// A larger first term gives no smaller sum.
pub proof fn law_sum_first(a: Binary32, b: Binary32, c: Binary32)
    requires
        a.at_most(b),
        !a.sum(c).nan(),
        !b.sum(c).nan(),
    ensures
        a.sum(c).at_most(b.sum(c)),
{
    if a.finite() && b.finite() && c.finite() {
        rounded::lemma_less_value(b, a);
        lemma_sum_rank(a, c);
        lemma_sum_rank(b, c);
        lemma_settled_increases(a.value() + c.value(), b.value() + c.value());
    }
}

/// A larger second term gives no smaller sum.
pub proof fn law_sum_second(a: Binary32, b: Binary32, c: Binary32)
    requires
        b.at_most(c),
        !a.sum(b).nan(),
        !a.sum(c).nan(),
    ensures
        a.sum(b).at_most(a.sum(c)),
{
    if a.finite() && b.finite() && c.finite() {
        rounded::lemma_less_value(c, b);
        lemma_sum_rank(a, b);
        lemma_sum_rank(a, c);
        lemma_settled_increases(a.value() + b.value(), a.value() + c.value());
    }
}

/// A larger proper factor gives no smaller product.
proof fn lemma_product_increases(a: Binary32, b: Binary32, c: Binary32)
    requires
        rounded::proper(a),
        rounded::proper(b),
        rounded::proper(c),
        a.at_most(b),
        !a.product(c).nan(),
        !b.product(c).nan(),
    ensures
        a.product(c).at_most(b.product(c)),
{
    rounded::lemma_product_proper(a, c);
    rounded::lemma_product_proper(b, c);
    if a.finite() && b.finite() && c.finite() {
        let unit = power2::pow2(149) as int;
        power2::lemma_pow2_pos(149);
        rounded::lemma_value(a);
        rounded::lemma_value(b);
        rounded::lemma_value(c);
        rounded::lemma_less_value(b, a);
        mul::lemma_mul_nonnegative(a.size(), c.size());
        mul::lemma_mul_inequality(a.size(), b.size(), c.size());
        let x = rounding::round(a.size() * c.size(), unit);
        let y = rounding::round(b.size() * c.size(), unit);
        rounding::lemma_round_increases(a.size() * c.size(), b.size() * c.size(), unit);
        rounding::lemma_round_below(a.size() * c.size(), unit);
        rounding::lemma_round_below(b.size() * c.size(), unit);
        rounded::lemma_signed(a.negative() != c.negative(), x);
        rounded::lemma_signed(b.negative() != c.negative(), y);
    } else {
        rounded::lemma_signed(a.negative() != c.negative(), INFINITE as int);
        rounded::lemma_signed(b.negative() != c.negative(), INFINITE as int);
    }
}

/// A larger proper dividend gives no smaller quotient.
proof fn lemma_quotient_increases(a: Binary32, b: Binary32, c: Binary32)
    requires
        rounded::proper(a),
        rounded::proper(b),
        Binary32::zero().less(c),
        a.at_most(b),
        !a.quotient(c).nan(),
        !b.quotient(c).nan(),
    ensures
        a.quotient(c).at_most(b.quotient(c)),
{
    rounded::lemma_quotient_proper(a, c);
    rounded::lemma_quotient_proper(b, c);
    if a.finite() && b.finite() && c.finite() {
        let unit = power2::pow2(149) as int;
        power2::lemma_pow2_pos(149);
        rounded::lemma_value(a);
        rounded::lemma_value(b);
        rounded::lemma_value(c);
        rounded::lemma_less_value(b, a);
        mul::lemma_mul_nonnegative(a.size(), unit);
        mul::lemma_mul_inequality(a.size(), b.size(), unit);
        let x = rounding::round(a.size() * unit, c.size());
        let y = rounding::round(b.size() * unit, c.size());
        rounding::lemma_round_increases(a.size() * unit, b.size() * unit, c.size());
        rounding::lemma_round_below(a.size() * unit, c.size());
        rounding::lemma_round_below(b.size() * unit, c.size());
        rounded::lemma_signed(a.negative() != c.negative(), x);
        rounded::lemma_signed(b.negative() != c.negative(), y);
    } else {
        rounded::lemma_signed(a.negative() != c.negative(), INFINITE as int);
        rounded::lemma_signed(b.negative() != c.negative(), INFINITE as int);
        rounded::lemma_signed(a.negative() != c.negative(), 0);
        rounded::lemma_signed(b.negative() != c.negative(), 0);
    }
}

/// The sum of zeros is zero.
pub proof fn lemma_total_zero(s: Seq<Binary32>)
    requires
        forall|i: int| 0 <= i < s.len() ==> (#[trigger] s[i]).is_zero(),
    ensures
        number::total(s).is_zero(),
    decreases s.len(),
{
    if s.len() > 0 {
        assert(s[s.len() - 1].is_zero());
        assert forall|i: int| 0 <= i < s.drop_last().len() implies (
        #[trigger] s.drop_last()[i]).is_zero() by {
            assert(s[i].is_zero());
        }
        lemma_total_zero(s.drop_last());
        let a = number::total(s.drop_last());
        rounding::lemma_magnitude_increases(0, 0);
        assert(a.value() + s.last().value() == 0);
        rounded::lemma_signed(a.negative() && s.last().negative(), 0);
    }
}

/// Filling up with more makes no column narrower.
proof fn lemma_filled_more(
    w: Seq<Binary32>,
    a: Binary32,
    b: Binary32,
    max: Seq<Binary32>,
    pct: Seq<Binary32>,
    i: int,
)
    requires
        0 <= i < w.len(),
        rounded::proper(a),
        a.at_most(b),
        !w[i].nan(),
        !distribute::filled(w, a, max, pct)[i].nan(),
        !distribute::filled(w, b, max, pct)[i].nan(),
    ensures
        distribute::filled(w, a, max, pct)[i].at_most(distribute::filled(w, b, max, pct)[i]),
{
    let n = w.len() as int;
    let grow = distribute::room(w, max, pct);
    let growth = number::total(grow);
    let some = Binary32::zero().less(growth);
    assert forall|k: int| 0 <= k < grow.len() implies rounded::proper(#[trigger] grow[k]) by {
        rounded::lemma_larger_proper(max[k].difference(w[k]));
    }
    rounded::lemma_total_proper(grow);
    let take_a = a.smaller(growth);
    let take_b = b.smaller(growth);
    let wider_a = if some {
        distribute::grown(w, take_a, grow)
    } else {
        w
    };
    let wider_b = if some {
        distribute::grown(w, take_b, grow)
    } else {
        w
    };
    let left_a = if some {
        a.difference(take_a)
    } else {
        a
    };
    let left_b = if some {
        b.difference(take_b)
    } else {
        b
    };
    assert(!wider_a[i].nan() && !wider_b[i].nan());
    assert(wider_a[i].at_most(wider_b[i])) by {
        if some {
            let x = take_a.product(grow[i]);
            let y = take_b.product(grow[i]);
            lemma_product_increases(take_a, take_b, grow[i]);
            rounded::lemma_product_proper(take_a, grow[i]);
            rounded::lemma_product_proper(take_b, grow[i]);
            lemma_quotient_increases(x, y, growth);
            law_sum_second(w[i], x.quotient(growth), y.quotient(growth));
        }
    }
    // What is left is nothing, or grows too.
    if Binary32::zero().less(left_a) {
        if some {
            if growth.less(a) {
                if b.finite() {
                    lemma_sum_rank(b, growth.opposite());
                }
                law_sum_first(a, b, growth.opposite());
            } else {
                rounded::lemma_signed(a.negative() && a.opposite().negative(), 0);
            }
        }
        assert(left_a.at_most(left_b));
    }
    if Binary32::zero().less(left_b) && distribute::stretches(pct, n, i) {
        let targets = if distribute::plain_columns(pct, n) == 0 {
            n
        } else {
            distribute::plain_columns(pct, n)
        };
        let c = Binary32::count(targets);
        rounded::lemma_plain_columns(pct, n);
        rounded::lemma_count(targets);
        let share_b = left_b.quotient(c);
        assert(!share_b.nan());
        rounded::lemma_quotient_proper(left_b, c);
        rounded::law_sum_grows(wider_b[i], share_b);
        if Binary32::zero().less(left_a) {
            let share_a = left_a.quotient(c);
            assert(!share_a.nan());
            rounded::lemma_quotient_proper(left_a, c);
            lemma_quotient_increases(left_a, left_b, c);
            law_sum_first(wider_a[i], wider_b[i], share_a);
            law_sum_second(wider_b[i], share_a, share_b);
        }
    }
}

/// Where no column has a percentage, more width narrows no column, and rounding does
/// not change that. This is about columns whose width is a number.
pub proof fn law_more_width(
    a: Binary32,
    b: Binary32,
    min: Seq<Binary32>,
    max: Seq<Binary32>,
    pct: Seq<Binary32>,
    i: int,
)
    requires
        min.len() == max.len() == pct.len(),
        0 <= i < min.len(),
        forall|k: int| 0 <= k < pct.len() ==> (#[trigger] pct[k]).is_zero(),
        a.at_most(b),
        !distribute::distributed(a, min, max, pct)[i].nan(),
        !distribute::distributed(b, min, max, pct)[i].nan(),
    ensures
        distribute::distributed(a, min, max, pct)[i].at_most(
            distribute::distributed(b, min, max, pct)[i],
        ),
{
    let slack = Binary32::slack();
    assert forall|k: int| 0 <= k < pct.len() implies !Binary32::zero().less(#[trigger] pct[k]) by {
        assert(pct[k].is_zero());
    }
    assert(distribute::claims(a, min, pct) =~= min);
    assert(distribute::claims(b, min, pct) =~= min);
    let assigned = number::total(min);
    if assigned.sum(slack).less(a) {
        rounded::law_sum_grows(assigned, slack);
        rounded::lemma_difference_proper(a, assigned);
        rounded::lemma_difference_proper(b, assigned);
        law_sum_first(a, b, assigned.opposite());
        assert(!min[i].nan());
        lemma_filled_more(min, a.difference(assigned), b.difference(assigned), max, pct, i);
    } else {
        let give = distribute::spare(min, min);
        assert forall|k: int| 0 <= k < give.len() implies (#[trigger] give[k]).is_zero() by {
            let x = min[k];
            if x.finite() {
                rounded::lemma_value(x);
                assert(x.value() + x.opposite().value() == 0);
                rounded::lemma_signed(x.negative() && x.opposite().negative(), 0);
            }
        }
        lemma_total_zero(give);
        assert(distribute::distributed(a, min, max, pct)[i] == min[i]);
        rounded::law_floor(b, min, max, pct, i);
    }
}

}
