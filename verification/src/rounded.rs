//! What holds of column sizing in binary32 numbers, rounding included.

use vstd::arithmetic::mul;
use vstd::arithmetic::power2;
use vstd::prelude::*;

use crate::binary32::Binary32;
use crate::columns;
use crate::distribute;
use crate::laws;
use crate::number;
use crate::number::Number;
use crate::rounding;
use crate::rounding::INFINITE;

verus! {

/// Whether this is a number, and not negative.
pub open spec fn proper(x: Binary32) -> bool {
    !x.nan() && 0 <= x.rank()
}

/// The rank of a number with a given sign.
pub proof fn lemma_signed(negative: bool, low: int)
    requires
        0 <= low <= INFINITE,
    ensures
        Binary32::signed(negative, low).low() == low,
        Binary32::signed(negative, low).negative() == negative,
{
}

/// The value of a finite number has its rank's sign.
pub proof fn lemma_value(x: Binary32)
    requires
        x.finite(),
    ensures
        0 <= x.size(),
        x.low() == 0 <==> x.size() == 0,
        0 <= x.rank() <==> 0 <= x.value(),
{
    rounding::lemma_magnitude_increases(0, x.low());
}

/// Finite numbers are ordered by their values.
pub proof fn lemma_less_value(x: Binary32, y: Binary32)
    requires
        x.finite(),
        y.finite(),
    ensures
        x.less(y) <==> x.value() < y.value(),
{
    lemma_value(x);
    lemma_value(y);
    if x.low() <= y.low() {
        rounding::lemma_magnitude_increases(x.low(), y.low());
    } else {
        rounding::lemma_magnitude_increases(y.low(), x.low());
    }
}

/// Adding a number that is not negative gives no smaller number, where the sum is a
/// number.
pub proof fn law_sum_grows(a: Binary32, b: Binary32)
    requires
        !a.nan(),
        proper(b),
        !a.sum(b).nan(),
    ensures
        a.at_most(a.sum(b)),
{
    if a.finite() && b.finite() {
        let total = a.value() + b.value();
        lemma_value(a);
        lemma_value(b);
        rounding::lemma_round_magnitude(a.low());
        if total > 0 {
            rounding::lemma_round_nearest(total, 1);
            lemma_signed(false, rounding::round(total, 1));
            if a.value() >= 0 {
                rounding::lemma_round_increases(a.size(), total, 1);
            }
        } else if total < 0 {
            rounding::lemma_round_nearest(-total, 1);
            lemma_signed(true, rounding::round(-total, 1));
            rounding::lemma_round_increases(-total, a.size(), 1);
        }
    }
}

/// Taking a number that is not negative leaves no larger number, where the difference
/// is a number.
pub proof fn law_difference_shrinks(a: Binary32, b: Binary32)
    requires
        !a.nan(),
        proper(b),
        !a.difference(b).nan(),
    ensures
        a.difference(b).at_most(a),
{
    let c = b.opposite();
    if a.finite() && c.finite() {
        let total = a.value() + c.value();
        lemma_value(a);
        lemma_value(b);
        lemma_value(c);
        rounding::lemma_round_magnitude(a.low());
        if total < 0 {
            rounding::lemma_round_nearest(-total, 1);
            lemma_signed(true, rounding::round(-total, 1));
            if a.value() <= 0 {
                rounding::lemma_round_increases(a.size(), -total, 1);
            }
        } else if total > 0 {
            rounding::lemma_round_nearest(total, 1);
            lemma_signed(false, rounding::round(total, 1));
            rounding::lemma_round_increases(total, a.size(), 1);
        }
    }
}

/// Sums of proper numbers are proper.
pub proof fn lemma_sum_proper(a: Binary32, b: Binary32)
    requires
        proper(a),
        proper(b),
    ensures
        proper(a.sum(b)),
        a.at_most(a.sum(b)),
{
    if a.finite() && b.finite() {
        let total = a.value() + b.value();
        lemma_value(a);
        lemma_value(b);
        if total > 0 {
            rounding::lemma_round_nearest(total, 1);
            lemma_signed(false, rounding::round(total, 1));
        }
    }
    law_sum_grows(a, b);
}

/// The difference to a smaller number is proper.
pub proof fn lemma_difference_proper(a: Binary32, b: Binary32)
    requires
        b.less(a),
    ensures
        proper(a.difference(b)),
{
    let c = b.opposite();
    if a.finite() && b.finite() {
        lemma_less_value(b, a);
        lemma_value(a);
        lemma_value(b);
        let total = a.value() + c.value();
        rounding::lemma_round_nearest(total, 1);
        lemma_signed(false, rounding::round(total, 1));
    }
}

/// The product of proper numbers is proper, where it is a number.
pub proof fn lemma_product_proper(a: Binary32, b: Binary32)
    requires
        proper(a),
        proper(b),
        !a.product(b).nan(),
    ensures
        proper(a.product(b)),
{
    let negative = a.negative() != b.negative();
    let unit = power2::pow2(149) as int;
    power2::lemma_pow2_pos(149);
    if a.finite() && b.finite() {
        lemma_value(a);
        lemma_value(b);
        let num = a.size() * b.size();
        mul::lemma_mul_nonnegative(a.size(), b.size());
        rounding::lemma_round_nearest(num, unit);
        lemma_signed(negative, rounding::round(num, unit));
        if negative {
            assert(num == 0) by {
                mul::lemma_mul_basics(a.size());
                mul::lemma_mul_basics(b.size());
            }
            rounding::lemma_round_zero(unit);
        }
    } else {
        lemma_signed(negative, INFINITE as int);
    }
}

/// The quotient of proper numbers is proper, where it is a number.
pub proof fn lemma_quotient_proper(a: Binary32, b: Binary32)
    requires
        proper(a),
        proper(b),
        !b.is_zero(),
        !a.quotient(b).nan(),
    ensures
        proper(a.quotient(b)),
{
    let negative = a.negative() != b.negative();
    if a.finite() && b.finite() {
        lemma_value(a);
        lemma_value(b);
        let unit = power2::pow2(149) as int;
        power2::lemma_pow2_pos(149);
        let num = a.size() * unit;
        mul::lemma_mul_nonnegative(a.size(), unit);
        rounding::lemma_round_nearest(num, b.size());
        lemma_signed(negative, rounding::round(num, b.size()));
        if negative {
            assert(num == 0) by {
                mul::lemma_mul_basics(unit);
            }
            rounding::lemma_round_zero(b.size());
        }
    } else {
        lemma_signed(negative, INFINITE as int);
        lemma_signed(negative, 0);
    }
}

/// The larger of a number and zero is proper.
pub proof fn lemma_larger_proper(x: Binary32)
    ensures
        proper(x.larger(Binary32::zero())),
        proper(Binary32::zero().larger(x)),
{
}

/// Counts are proper numbers, finite ones up to 2^64, and zero only for nothing.
pub proof fn lemma_count(n: int)
    requires
        0 <= n,
    ensures
        proper(Binary32::count(n)),
        0 < n ==> !Binary32::count(n).is_zero(),
        n <= power2::pow2(64) ==> Binary32::count(n).finite(),
{
    let unit = power2::pow2(149) as int;
    power2::lemma_pow2_pos(149);
    mul::lemma_mul_nonnegative(n, unit);
    rounding::lemma_round_nearest(n * unit, 1);
    lemma_signed(false, rounding::round(n * unit, 1));
    if n <= power2::pow2(64) {
        let m = 190int * 0x80_0000 + 0x80_0000int;
        rounding::lemma_magnitude(190, 0x80_0000);
        rounding::lemma_round_magnitude(m);
        power2::lemma2_to64();
        power2::lemma_pow2_adds(64, 149);
        power2::lemma_pow2_adds(23, 190);
        mul::lemma_mul_inequality(n, power2::pow2(64) as int, unit);
        rounding::lemma_round_increases(n * unit, power2::pow2(64) * unit, 1);
    }
    if 0 < n {
        power2::lemma2_to64();
        rounding::lemma_magnitude(0, 1);
        rounding::lemma_round_magnitude(1);
        mul::lemma_mul_increases(n, unit);
        mul::lemma_mul_strictly_positive(n, unit);
        rounding::lemma_round_increases(1, n * unit, 1);
    }
}

/// The sum of proper numbers is proper.
pub proof fn lemma_total_proper(s: Seq<Binary32>)
    requires
        forall|i: int| 0 <= i < s.len() ==> proper(#[trigger] s[i]),
    ensures
        proper(number::total(s)),
    decreases s.len(),
{
    if s.len() > 0 {
        assert forall|i: int| 0 <= i < s.drop_last().len() implies proper(
            #[trigger] s.drop_last()[i],
        ) by {
            assert(s[i] == s.drop_last()[i]);
        }
        lemma_total_proper(s.drop_last());
        assert(s[s.len() - 1] == s.last());
        lemma_sum_proper(number::total(s.drop_last()), s.last());
    }
}

/// Whether columns have proper widths, each of them no less than another one.
pub open spec fn covers(a: Seq<Binary32>, b: Seq<Binary32>) -> bool {
    &&& a.len() == b.len()
    &&& forall|c: int|
        #![trigger a[c]]
        #![trigger b[c]]
        0 <= c < a.len() ==> proper(a[c]) && b[c].at_most(a[c])
}

/// Widening makes no column narrower.
pub proof fn lemma_widened(sizes: Seq<Binary32>, from: int, to: int, need: Binary32)
    requires
        0 <= from < to <= sizes.len() <= power2::pow2(64),
        covers(sizes, sizes),
    ensures
        covers(columns::widened(sizes, from, to, need), sizes),
{
    let part = sizes.subrange(from, to);
    let have = number::total(part);
    let r = columns::widened(sizes, from, to, need);
    assert forall|i: int| 0 <= i < part.len() implies proper(#[trigger] part[i]) by {
        assert(part[i] == sizes[from + i]);
    }
    lemma_total_proper(part);
    if have.less(need) {
        let missing = need.difference(have);
        let n = Binary32::count(to - from);
        let share = missing.quotient(n);
        lemma_difference_proper(need, have);
        lemma_count(to - from);
        if missing.finite() {
            lemma_value(missing);
            lemma_value(n);
            power2::lemma_pow2_pos(149);
            let num = missing.size() * power2::pow2(149);
            mul::lemma_mul_nonnegative(missing.size(), power2::pow2(149) as int);
            rounding::lemma_round_nearest(num, n.size());
            lemma_signed(missing.negative() != n.negative(), rounding::round(num, n.size()));
        } else {
            lemma_signed(missing.negative() != n.negative(), INFINITE as int);
        }
        lemma_quotient_proper(missing, n);
        assert forall|c: int| 0 <= c < r.len() implies proper(#[trigger] r[c])
            && sizes[c].at_most(r[c]) by {
            assert(proper(sizes[c]));
            lemma_sum_proper(sizes[c], share);
        }
    }
}

/// Spanning cells make no column narrower, from the first `k` of them on.
pub proof fn lemma_with_spans(
    start: columns::Sizes<Binary32>,
    facts: Seq<columns::Fact<Binary32>>,
    order: Seq<int>,
    k: int,
)
    requires
        start.min.len() == start.max.len() == start.pct.len() <= power2::pow2(64),
        covers(start.min, start.min),
        covers(start.max, start.max),
        covers(start.pct, start.pct),
        laws::well_placed(facts),
        forall|j: int| 0 <= j < order.len() ==> 0 <= #[trigger] order[j] < facts.len(),
        0 <= k <= order.len(),
    ensures
        ({
            let full = columns::with_spans(start, facts, order);
            let part = columns::with_spans(start, facts, order.take(k));
            &&& covers(full.min, part.min)
            &&& covers(full.max, part.max)
            &&& covers(full.pct, part.pct)
            &&& covers(full.min, start.min)
            &&& covers(full.max, start.max)
            &&& covers(full.pct, start.pct)
        }),
    decreases order.len(),
{
    if order.len() == 0 {
        assert(order.take(k) =~= order);
    } else {
        let before = columns::with_spans(start, facts, order.drop_last());
        let fact = facts[order.last()];
        assert(order[order.len() - 1] == order.last());
        let end = columns::span_end(fact, start.min.len() as int);
        assert forall|j: int| 0 <= j < order.drop_last().len() implies 0
            <= #[trigger] order.drop_last()[j] < facts.len() by {
            assert(order[j] == order.drop_last()[j]);
        }
        if k == order.len() {
            assert(order.take(k) =~= order);
            lemma_with_spans(start, facts, order.drop_last(), 0);
        } else {
            lemma_with_spans(start, facts, order.drop_last(), k);
            assert(order.drop_last().take(k) =~= order.take(k));
        }
        assert(covers(before.min, before.min));
        assert(covers(before.max, before.max));
        assert(covers(before.pct, before.pct));
        if fact.col < end {
            lemma_widened(before.min, fact.col, end, fact.min);
            lemma_widened(before.max, fact.col, end, fact.max);
            match fact.pct {
                Some(part) => {
                    lemma_widened(before.pct, fact.col, end, part);
                },
                None => {},
            }
        }
    }
}

/// What cells that lie in one column alone give it is proper, and no less than any of
/// them needs.
pub proof fn lemma_single(facts: Seq<columns::Fact<Binary32>>, c: int)
    ensures
        proper(columns::column_min(facts, c)),
        proper(columns::column_max(facts, c)),
        proper(columns::column_pct(facts, c)),
        forall|k: int|
            0 <= k < facts.len() && columns::lies_in(#[trigger] facts[k], c) ==> {
                &&& !facts[k].min.nan() ==> facts[k].min.at_most(columns::column_min(facts, c))
                &&& !facts[k].max.nan() ==> facts[k].max.at_most(columns::column_max(facts, c))
            },
    decreases facts.len(),
{
    if facts.len() > 0 {
        lemma_single(facts.drop_last(), c);
        assert forall|k: int|
            0 <= k < facts.len() && columns::lies_in(#[trigger] facts[k], c) implies {
            &&& !facts[k].min.nan() ==> facts[k].min.at_most(columns::column_min(facts, c))
            &&& !facts[k].max.nan() ==> facts[k].max.at_most(columns::column_max(facts, c))
        } by {
            if k < facts.len() - 1 {
                assert(facts.drop_last()[k] == facts[k]);
            }
        }
    }
}

/// The sizes that cells in one column alone give the columns are proper.
pub proof fn lemma_single_sizes(facts: Seq<columns::Fact<Binary32>>, n: int)
    requires
        0 <= n,
    ensures
        ({
            let single = columns::single_sizes(facts, n);
            &&& covers(single.min, single.min)
            &&& covers(single.max, single.max)
            &&& covers(single.pct, single.pct)
        }),
{
    let single = columns::single_sizes(facts, n);
    assert forall|c: int| 0 <= c < n implies proper(#[trigger] single.min[c]) by {
        lemma_single(facts, c);
    }
    assert forall|c: int| 0 <= c < n implies proper(#[trigger] single.max[c]) by {
        lemma_single(facts, c);
    }
    assert forall|c: int| 0 <= c < n implies proper(#[trigger] single.pct[c]) by {
        lemma_single(facts, c);
    }
}

/// The sizes of columns agree with each other, whatever the cells measure. In
/// particular, a spanning cell makes no column narrower than its own cells need.
pub proof fn law_sizes_sound(facts: Seq<columns::Fact<Binary32>>, n: int)
    requires
        0 <= n <= usize::MAX,
        laws::well_placed(facts),
    ensures
        laws::sound(columns::column_sizes(facts, n), n),
{
    let single = columns::single_sizes(facts, n);
    let spans = columns::span_counts(facts);
    let order = columns::span_order(spans);
    power2::lemma2_to64();
    columns::lemma_span_order(spans);
    lemma_single_sizes(facts, n);
    lemma_with_spans(single, facts, order, 0);
    let full = columns::full_sizes(facts, n);
    let sizes = columns::column_sizes(facts, n);
    assert forall|c: int| 0 <= c < n implies {
        &&& Binary32::zero().at_most(#[trigger] sizes.pct[c])
        &&& Binary32::zero().at_most(sizes.min[c])
        &&& sizes.min[c].at_most(sizes.max[c])
        &&& sizes.max[c].at_most(sizes.full_max[c])
        &&& sizes.min[c].at_most(sizes.full_min[c])
        &&& sizes.full_min[c].at_most(sizes.full_max[c])
    } by {
        assert(proper(full.min[c]) && single.min[c].at_most(full.min[c]));
        assert(proper(full.max[c]) && single.max[c].at_most(full.max[c]));
        assert(proper(full.pct[c]));
    }
}

/// What columns claim is no less than the least widths of their content.
proof fn lemma_claims(avail: Binary32, min: Seq<Binary32>, pct: Seq<Binary32>, i: int)
    requires
        0 <= i < min.len(),
        !min[i].nan(),
    ensures
        min[i].at_most(distribute::claims(avail, min, pct)[i]),
{
}

/// Adding a part by weight makes no column narrower.
proof fn lemma_part(amount: Binary32, weights: Seq<Binary32>, i: int)
    requires
        0 <= i < weights.len(),
        proper(amount),
        forall|k: int| 0 <= k < weights.len() ==> proper(#[trigger] weights[k]),
        Binary32::zero().less(number::total(weights)),
        !distribute::part(amount, weights[i], weights).nan(),
    ensures
        proper(distribute::part(amount, weights[i], weights)),
{
    let all = number::total(weights);
    lemma_total_proper(weights);
    let x = amount.product(weights[i]);
    lemma_product_proper(amount, weights[i]);
    lemma_quotient_proper(x, all);
}

/// Filling up makes no column narrower, where its width is a number.
pub proof fn lemma_filled(
    w: Seq<Binary32>,
    extra: Binary32,
    max: Seq<Binary32>,
    pct: Seq<Binary32>,
    i: int,
)
    requires
        0 <= i < w.len(),
        proper(extra),
        !w[i].nan(),
        !distribute::filled(w, extra, max, pct)[i].nan(),
    ensures
        w[i].at_most(distribute::filled(w, extra, max, pct)[i]),
{
    let grow = distribute::room(w, max, pct);
    let growth = number::total(grow);
    let take = extra.smaller(growth);
    let r = distribute::filled(w, extra, max, pct);
    let some = Binary32::zero().less(growth);
    let wider = if some {
        distribute::grown(w, take, grow)
    } else {
        w
    };
    let left = if some {
        extra.difference(take)
    } else {
        extra
    };
    assert(!wider[i].nan());
    assert(w[i].at_most(wider[i])) by {
        if some {
            assert forall|k: int| 0 <= k < grow.len() implies proper(#[trigger] grow[k]) by {
                lemma_larger_proper(max[k].difference(w[k]));
            }
            let part = distribute::part(take, grow[i], grow);
            assert(!part.nan());
            lemma_part(take, grow, i);
            law_sum_grows(w[i], part);
        }
    }
    if Binary32::zero().less(left) && distribute::stretches(pct, w.len() as int, i) {
        let n = w.len() as int;
        let targets = if distribute::plain_columns(pct, n) == 0 {
            n
        } else {
            distribute::plain_columns(pct, n)
        };
        lemma_plain_columns(pct, n);
        lemma_count(targets);
        let share = left.quotient(Binary32::count(targets));
        assert(!share.nan());
        lemma_quotient_proper(left, Binary32::count(targets));
        law_sum_grows(wider[i], share);
    }
}

pub proof fn lemma_plain_columns(pct: Seq<Binary32>, n: int)
    requires
        0 <= n,
    ensures
        0 <= distribute::plain_columns(pct, n) <= n,
    decreases n,
{
    if n > 0 {
        lemma_plain_columns(pct, n - 1);
    }
}

/// Taking nothing leaves a width as it is.
proof fn lemma_take_nothing(w: Binary32, zero: Binary32)
    requires
        !w.nan(),
        zero.is_zero(),
    ensures
        w.at_most(w.difference(zero)),
{
    if w.finite() {
        lemma_value(w);
        rounding::lemma_round_magnitude(w.low());
        rounding::lemma_magnitude_increases(0, 0);
    }
}

/// A column whose least width is a number gets no less than that, where its width is a
/// number: always where it claims no more than that, as columns without a percentage do,
/// and otherwise unless columns shrink because they claim more than the width.
pub proof fn law_floor(
    avail: Binary32,
    min: Seq<Binary32>,
    max: Seq<Binary32>,
    pct: Seq<Binary32>,
    i: int,
)
    requires
        min.len() == max.len() == pct.len(),
        0 <= i < min.len(),
        !min[i].nan(),
        !distribute::distributed(avail, min, max, pct)[i].nan(),
        distribute::claims(avail, min, pct)[i] == min[i] || !avail.sum(Binary32::slack()).less(
            number::total(distribute::claims(avail, min, pct)),
        ),
    ensures
        min[i].at_most(distribute::distributed(avail, min, max, pct)[i]),
{
    let w = distribute::claims(avail, min, pct);
    let assigned = number::total(w);
    let slack = Binary32::slack();
    lemma_claims(avail, min, pct, i);
    if assigned.sum(slack).less(avail) {
        law_sum_grows(assigned, slack);
        lemma_difference_proper(avail, assigned);
        lemma_filled(w, avail.difference(assigned), max, pct, i);
    } else if avail.sum(slack).less(assigned) {
        let give = distribute::spare(w, min);
        let all = number::total(give);
        if Binary32::zero().less(all) {
            let take = assigned.difference(avail).smaller(all);
            let part = distribute::part(take, give[i], give);
            assert(!part.nan());
            assert(give[i].is_zero()) by {
                let x = w[i].difference(min[i]);
                if !x.nan() {
                    assert(w[i].value() + min[i].opposite().value() == 0);
                }
            }
            lemma_part_of_nothing(take, give, i);
            lemma_take_nothing(w[i], part);
        }
    }
}

/// The part of an item without weight is zero.
proof fn lemma_part_of_nothing(amount: Binary32, weights: Seq<Binary32>, i: int)
    requires
        0 <= i < weights.len(),
        weights[i].is_zero(),
        Binary32::zero().less(number::total(weights)),
        !distribute::part(amount, weights[i], weights).nan(),
    ensures
        distribute::part(amount, weights[i], weights).is_zero(),
{
    let all = number::total(weights);
    let unit = power2::pow2(149) as int;
    let x = amount.product(weights[i]);
    power2::lemma_pow2_pos(149);
    rounding::lemma_magnitude_increases(0, 0);
    assert(x.is_zero()) by {
        lemma_value(weights[i]);
        mul::lemma_mul_basics(amount.size());
        rounding::lemma_round_zero(unit);
        lemma_signed(amount.negative() != weights[i].negative(), 0);
    }
    lemma_signed(x.negative() != all.negative(), 0);
    if all.finite() {
        lemma_value(all);
        lemma_value(x);
        mul::lemma_mul_basics(unit);
        rounding::lemma_round_zero(all.size());
    }
}

/// Where columns claim more than the width, none gets more than it claims, where its
/// width is a number.
pub proof fn law_relief(
    avail: Binary32,
    min: Seq<Binary32>,
    max: Seq<Binary32>,
    pct: Seq<Binary32>,
    i: int,
)
    requires
        min.len() == max.len() == pct.len(),
        0 <= i < min.len(),
        !min[i].nan(),
        !distribute::distributed(avail, min, max, pct)[i].nan(),
        avail.sum(Binary32::slack()).less(number::total(distribute::claims(avail, min, pct))),
    ensures
        distribute::distributed(avail, min, max, pct)[i].at_most(
            distribute::claims(avail, min, pct)[i],
        ),
{
    let w = distribute::claims(avail, min, pct);
    let assigned = number::total(w);
    let slack = Binary32::slack();
    let excess = assigned.difference(avail);
    law_sum_grows(avail, slack);
    lemma_claims(avail, min, pct, i);
    if assigned.sum(slack).less(avail) {
        law_sum_grows(assigned, slack);
    } else {
        let give = distribute::spare(w, min);
        if Binary32::zero().less(number::total(give)) {
            lemma_difference_proper(assigned, avail);
            let take = excess.smaller(number::total(give));
            let part = distribute::part(take, give[i], give);
            assert(!part.nan());
            assert forall|k: int| 0 <= k < give.len() implies proper(#[trigger] give[k]) by {
                lemma_larger_proper(w[k].difference(min[k]));
            }
            lemma_part(take, give, i);
            law_difference_shrinks(w[i], part);
        }
    }
}

/// What a part is worth at most, by the two roundings behind it.
pub proof fn lemma_part_rounded(take: Binary32, give: Binary32, all: Binary32)
    requires
        proper(take),
        proper(give),
        take.at_most(all),
        give.finite(),
        all.finite(),
        !all.is_zero(),
        take.product(give).finite(),
        take.product(give).quotient(all).finite(),
    ensures
        ({
            let x = take.product(give);
            let y = x.quotient(all);
            let unit = power2::pow2(149) as int;
            &&& proper(x)
            &&& proper(y)
            &&& take.size() <= all.size()
            &&& 0 < all.size()
            &&& 0 <= take.size()
            &&& 0 <= give.size()
            &&& x.low() == rounding::round(take.size() * give.size(), unit)
            &&& y.low() == rounding::round(x.size() * unit, all.size())
            &&& 0x80_0000 * (x.size() * unit) <= 0x80_0001 * (all.size() * give.size()) + 0x80_0000
                * unit
        }),
{
    let unit = power2::pow2(149) as int;
    power2::lemma_pow2_pos(149);
    let x = take.product(give);
    lemma_product_proper(take, give);
    lemma_quotient_proper(x, all);
    lemma_value(take);
    lemma_value(give);
    lemma_value(all);
    lemma_value(x);
    let t = take.size();
    let g = give.size();
    let s = all.size();
    assert(t <= s) by {
        lemma_less_value(all, take);
    }
    mul::lemma_mul_nonnegative(t, g);
    rounding::lemma_round_below(t * g, unit);
    lemma_signed(take.negative() != give.negative(), rounding::round(t * g, unit));
    let m = x.low();
    let num = x.size() * unit;
    mul::lemma_mul_nonnegative(x.size(), unit);
    rounding::lemma_round_below(num, s);
    lemma_signed(x.negative() != all.negative(), rounding::round(num, s));
    assert(t * g <= s * g) by (nonlinear_arith)
        requires
            t <= s,
            0 <= g,
    ;
    mul::lemma_mul_nonnegative(s, g);
    if m > 0 {
        rounding::lemma_gap(m - 1);
        let below = rounding::magnitude(m - 1);
        let size = x.size();
        assert(0x80_0000 * size <= 0x80_0001 * below + 0x80_0000);
        assert(0x80_0000 * (size * unit) <= 0x80_0001 * (unit * below) + 0x80_0000 * unit)
            by (nonlinear_arith)
            requires
                0x80_0000 * size <= 0x80_0001 * below + 0x80_0000,
                unit > 0,
        ;
    } else {
        mul::lemma_mul_basics(unit);
    }
}

/// The part that a column gives exceeds what it has to spare by rounding at most.
proof fn lemma_part_bound(take: Binary32, give: Binary32, all: Binary32)
    requires
        proper(take),
        proper(give),
        take.at_most(all),
        give.finite(),
        all.finite(),
        Binary32::one().at_most(all),
        take.product(give).finite(),
        take.product(give).quotient(all).finite(),
    ensures
        proper(take.product(give).quotient(all)),
        take.product(give).quotient(all).size() <= give.size() + 5 * rounding::gap(give.low()),
{
    let unit = power2::pow2(149) as int;
    power2::lemma_pow2_pos(149);
    let x = take.product(give);
    let y = x.quotient(all);
    lemma_part_rounded(take, give, all);
    let g = give.size();
    let s = all.size();
    let gap = rounding::gap(give.low());
    assert(unit <= s) by {
        lemma_less_value(all, Binary32::one());
        lemma_one();
        lemma_value(all);
    }
    let num = x.size() * unit;
    lemma_value(x);
    mul::lemma_mul_nonnegative(x.size(), unit);
    rounding::lemma_round_below(num, s);
    let k = y.low();
    rounding::lemma_gap(give.low());
    if k > 0 {
        let below = rounding::magnitude(k - 1);
        assert(0x80_0000 * below <= 0x80_0001 * g + 0x80_0000) by (nonlinear_arith)
            requires
                s * below <= num,
                0x80_0000 * num <= 0x80_0001 * (s * g) + 0x80_0000 * unit,
                unit <= s,
                s > 0,
        ;
        assert(below <= g + 3 * gap);
        lemma_few_steps(give.low());
        if give.low() + 3 < k - 1 {
            rounding::lemma_magnitude_increases(give.low() + 3, k - 1);
        }
        rounding::lemma_gap_increases(k - 1, give.low() + 3);
        rounding::lemma_gap_increases(give.low(), give.low() + 3);
    }
}

/// The same where columns can shrink by little in all: then the product can be too
/// small for all its digits.
proof fn lemma_small_part_bound(take: Binary32, give: Binary32, all: Binary32)
    requires
        proper(take),
        proper(give),
        take.at_most(all),
        give.at_most(all),
        all.finite(),
        !all.is_zero(),
        take.product(give).finite(),
        take.product(give).quotient(all).finite(),
    ensures
        proper(take.product(give).quotient(all)),
        take.product(give).quotient(all).size() <= give.size() + 6 * rounding::gap(give.low()) + 3
            * power2::pow2(75),
{
    let unit = power2::pow2(149) as int;
    let h = power2::pow2(74) as int;
    let q = power2::pow2(75) as int;
    power2::lemma_pow2_pos(149);
    power2::lemma_pow2_pos(74);
    power2::lemma_pow2_unfold(75);
    power2::lemma_pow2_unfold(149);
    power2::lemma_pow2_adds(74, 75);
    power2::lemma_pow2_adds(74, 74);
    let x = take.product(give);
    let y = x.quotient(all);
    lemma_part_rounded(take, give, all);
    let t = take.size();
    let g = give.size();
    let s = all.size();
    let gap = rounding::gap(give.low());
    let num = x.size() * unit;
    lemma_value(x);
    mul::lemma_mul_nonnegative(x.size(), unit);
    rounding::lemma_round_below(num, s);
    rounding::lemma_gap(give.low());
    let k = y.low();
    if s < h {
        lemma_less_value(all, give);
        lemma_value(give);
        lemma_value(all);
        assert(2 * (t * g) < unit) by (nonlinear_arith)
            requires
                0 <= t <= s < h,
                0 <= g <= s,
                unit == 2 * (h * h),
        ;
        mul::lemma_mul_nonnegative(t, g);
        rounding::lemma_round_to_zero(t * g, unit);
        rounding::lemma_magnitude_increases(0, 0);
        mul::lemma_mul_basics(unit);
        rounding::lemma_round_zero(s);
    } else if k > 0 {
        assert(unit <= q * s) by (nonlinear_arith)
            requires
                unit == h * q,
                h <= s,
                q > 0,
        ;
        let below = rounding::magnitude(k - 1);
        assert(0x80_0000 * below <= 0x80_0001 * g + 0x80_0000 * q) by (nonlinear_arith)
            requires
                s * below <= num,
                0x80_0000 * num <= 0x80_0001 * (s * g) + 0x80_0000 * unit,
                unit <= q * s,
                s > 0,
        ;
        rounding::lemma_gap(k - 1);
    }
}

/// What one is worth.
pub proof fn lemma_one()
    ensures
        Binary32::one().finite(),
        Binary32::one().value() == power2::pow2(149),
{
    rounding::lemma_magnitude(126, 0x80_0000);
    power2::lemma_pow2_adds(23, 126);
    power2::lemma2_to64();
}

/// Three magnitudes on, at least three gaps were passed.
proof fn lemma_few_steps(m: int)
    requires
        0 <= m,
    ensures
        rounding::magnitude(m) + 3 * rounding::gap(m) <= rounding::magnitude(m + 3),
{
    rounding::lemma_gap_increases(m, m + 1);
    rounding::lemma_gap_increases(m, m + 2);
}

/// What a column keeps that gives a little more than it has to spare.
proof fn lemma_kept(w: Binary32, min: Binary32, part: Binary32, k: int, e: int)
    requires
        0 <= k,
        0 <= e,
        w.finite(),
        min.finite(),
        part.finite(),
        proper(w),
        proper(min),
        proper(part),
        min.at_most(w),
        k <= 7,
        part.size() <= w.size() - min.size() + k * rounding::gap(w.low()) + e,
    ensures
        w.difference(part).finite() ==> min.value() - w.difference(part).value() <= (k + 1)
            * rounding::gap(w.low()) + 2 * e,
{
    let gaps = k * rounding::gap(w.low());
    let width = rounding::gap(w.low());
    rounding::lemma_gap(w.low());
    assert(0 <= gaps <= 7 * width && (k + 1) * width == gaps + width) by (nonlinear_arith)
        requires
            gaps == k * width,
            0 <= k <= 7,
            1 <= width,
    ;

    lemma_value(w);
    lemma_value(min);
    lemma_value(part);
    lemma_value(part.opposite());
    let gap = rounding::gap(w.low());
    let r = w.difference(part);
    let x = w.size() - part.size();
    rounding::lemma_gap(w.low());
    rounding::lemma_round_magnitude(w.low());
    assert(w.value() + part.opposite().value() == x);
    if x > 0 {
        let m = rounding::round(x, 1);
        rounding::lemma_round_below(x, 1);
        rounding::lemma_round_increases(x, w.size(), 1);
        lemma_signed(false, m);
        rounding::lemma_round_above(x, 1);
        rounding::lemma_gap_increases(m, w.low());
    } else if x < 0 {
        let m = rounding::round(-x, 1);
        rounding::lemma_round_below(-x, 1);
        lemma_signed(true, m);
        if m > 0 && m - 1 > w.low() {
            rounding::lemma_gap(m - 1);
        }
        if m > 0 && m - 1 <= w.low() {
            rounding::lemma_gap_increases(m - 1, w.low());
        }
    } else {
        lemma_signed(false, 0);
        lemma_signed(true, 0);
        rounding::lemma_magnitude_increases(0, 0);
    }
}

/// A column that shrinks keeps its least width, up to rounding. Where the columns can
/// shrink by a pixel or more together, it is short of it by seven times the gap behind
/// the width that it claims, at most. Where they cannot, it is short by eight times
/// that gap and 2^-71 pixels, at most. This is about finite numbers.
pub proof fn law_floor_shrunk(
    avail: Binary32,
    min: Seq<Binary32>,
    max: Seq<Binary32>,
    pct: Seq<Binary32>,
    i: int,
)
    requires
        min.len() == max.len() == pct.len(),
        0 <= i < min.len(),
        avail.sum(Binary32::slack()).less(number::total(distribute::claims(avail, min, pct))),
        min[i].finite(),
        0 <= min[i].rank(),
        distribute::claims(avail, min, pct)[i].finite(),
        distribute::distributed(avail, min, max, pct)[i].finite(),
    ensures
        ({
            let w = distribute::claims(avail, min, pct);
            let short = min[i].value() - distribute::distributed(avail, min, max, pct)[i].value();
            let gap = rounding::gap(w[i].low());
            &&& Binary32::one().at_most(number::total(distribute::spare(w, min))) ==> short <= 7
                * gap
            &&& short <= 8 * gap + power2::pow2(78)
        }),
{
    let claimed = distribute::claims(avail, min, pct);
    let assigned = number::total(claimed);
    let slack = Binary32::slack();
    let w = claimed[i];
    let least = min[i];
    law_sum_grows(avail, slack);
    lemma_claims(avail, min, pct, i);
    if assigned.sum(slack).less(avail) {
        law_sum_grows(assigned, slack);
    }
    let give = distribute::spare(claimed, min);
    let all = number::total(give);
    let excess = assigned.difference(avail);
    let take = excess.smaller(all);
    let part = distribute::part(take, give[i], give);
    lemma_one();
    lemma_difference_proper(assigned, avail);
    assert forall|k: int| 0 <= k < give.len() implies proper(#[trigger] give[k]) by {
        lemma_larger_proper(claimed[k].difference(min[k]));
    }
    lemma_total_proper(give);
    lemma_total_term(give, i);
    lemma_value(w);
    lemma_value(least);
    lemma_less_value(w, least);
    rounding::lemma_gap(w.low());
    power2::lemma_pow2_pos(75);
    power2::lemma_pow2_unfold(76);
    power2::lemma_pow2_unfold(77);
    power2::lemma_pow2_unfold(78);
    if Binary32::zero().less(all) {
        assert(distribute::distributed(avail, min, max, pct)[i] == w.difference(part));
        lemma_spare(w, least);
        rounding::lemma_gap_increases(give[i].low(), w.low());
        assert(!part.nan() && part.finite()) by {
            if part.nan() || part.infinite() {
                assert(!w.difference(part).finite());
            }
        }
        let x = take.product(give[i]);
        if all.finite() {
            assert(x.finite()) by {
                if x.infinite() {
                    lemma_signed(x.negative() != all.negative(), INFINITE as int);
                }
            }
            if Binary32::one().at_most(all) {
                lemma_part_bound(take, give[i], all);
                lemma_kept(w, least, part, 6, 0);
            } else {
                lemma_small_part_bound(take, give[i], all);
                lemma_kept(w, least, part, 7, 3int * power2::pow2(75));
            }
        } else {
            lemma_signed(x.negative() != all.negative(), 0);
            rounding::lemma_magnitude_increases(0, 0);
            assert(part.is_zero() && part.size() == 0);
            lemma_kept(w, least, part, 6, 0);
        }
    }
}

/// What a column has to spare, up to rounding.
pub proof fn lemma_spare(w: Binary32, least: Binary32)
    requires
        w.finite(),
        least.finite(),
        proper(w),
        proper(least),
        least.at_most(w),
    ensures
        ({
            let give = w.difference(least).larger(Binary32::zero());
            &&& proper(give)
            &&& give.finite()
            &&& give.low() <= w.low()
            &&& give.size() <= w.size() - least.size() + rounding::gap(w.low())
            &&& w.size() - least.size() <= give.size() + rounding::gap(w.low())
        }),
{
    let give = w.difference(least).larger(Binary32::zero());
    lemma_value(w);
    lemma_value(least);
    lemma_value(least.opposite());
    lemma_less_value(w, least);
    let room = w.size() - least.size();
    let g = give.low();
    rounding::lemma_round_below(room, 1);
    rounding::lemma_round_increases(room, w.size(), 1);
    rounding::lemma_round_magnitude(w.low());
    rounding::lemma_round_zero(1);
    lemma_signed(false, rounding::round(room, 1));
    assert(g == rounding::round(room, 1)) by {
        lemma_signed(w.negative() && least.opposite().negative(), 0);
    }
    rounding::lemma_round_above(room, 1);
    rounding::lemma_gap(w.low());
    if g > 0 {
        rounding::lemma_gap_increases(g - 1, w.low());
    } else {
        rounding::lemma_magnitude_increases(0, 0);
    }
    rounding::lemma_gap_increases(g, w.low());
}

/// No item is larger than the sum of all.
pub proof fn lemma_total_term(s: Seq<Binary32>, i: int)
    requires
        0 <= i < s.len(),
        forall|k: int| 0 <= k < s.len() ==> proper(#[trigger] s[k]),
    ensures
        s[i].at_most(number::total(s)),
    decreases s.len(),
{
    let rest = s.drop_last();
    assert forall|k: int| 0 <= k < rest.len() implies proper(#[trigger] rest[k]) by {
        assert(rest[k] == s[k]);
    }
    lemma_total_proper(rest);
    assert(s[s.len() - 1] == s.last());
    lemma_sum_proper(number::total(rest), s.last());
    if i < s.len() - 1 {
        lemma_total_term(rest, i);
        assert(rest[i] == s[i]);
    } else {
        lemma_sum_other(number::total(rest), s.last());
    }
}

/// A sum of proper numbers is no less than the second one either.
pub proof fn lemma_sum_other(a: Binary32, b: Binary32)
    requires
        proper(a),
        proper(b),
    ensures
        b.at_most(a.sum(b)),
{
    lemma_sum_proper(b, a);
    if a.finite() && b.finite() {
        assert(a.value() + b.value() == b.value() + a.value());
        assert(a.sum(b).rank() == b.sum(a).rank());
    }
}

/// Adding nothing leaves a width as it is.
proof fn lemma_add_nothing(w: Binary32, zero: Binary32)
    requires
        !w.nan(),
        zero.is_zero(),
    ensures
        !w.sum(zero).nan(),
        w.sum(zero).rank() == w.rank(),
{
    rounding::lemma_magnitude_increases(0, 0);
    if w.finite() {
        lemma_value(w);
        rounding::lemma_round_magnitude(w.low());
        lemma_signed(w.negative(), w.low());
        lemma_signed(w.negative() && zero.negative(), 0);
    }
}

/// A column without a percentage is counted.
proof fn lemma_some_plain(pct: Seq<Binary32>, n: int, plain: int)
    requires
        0 <= plain < n,
        pct[plain].is_zero(),
    ensures
        distribute::plain_columns(pct, n) > 0,
    decreases n,
{
    lemma_plain_columns(pct, n - 1);
    if plain < n - 1 {
        lemma_some_plain(pct, n - 1, plain);
    }
}

/// As long as columns do not shrink, and one of them has no percentage, a percentage
/// column gets just what it claims, where its width is a number.
pub proof fn law_percentage_kept(
    avail: Binary32,
    min: Seq<Binary32>,
    max: Seq<Binary32>,
    pct: Seq<Binary32>,
    i: int,
    plain: int,
)
    requires
        min.len() == max.len() == pct.len(),
        0 <= i < min.len(),
        !pct[i].is_zero(),
        0 <= plain < min.len(),
        pct[plain].is_zero(),
        !avail.sum(Binary32::slack()).less(number::total(distribute::claims(avail, min, pct))),
        !distribute::distributed(avail, min, max, pct)[i].nan(),
    ensures
        !distribute::claims(avail, min, pct)[i].nan(),
        distribute::distributed(avail, min, max, pct)[i].rank() == distribute::claims(
            avail,
            min,
            pct,
        )[i].rank(),
{
    let w = distribute::claims(avail, min, pct);
    let n = w.len() as int;
    let grow = distribute::room(w, max, pct);
    let growth = number::total(grow);
    let take = avail.difference(number::total(w)).smaller(growth);
    lemma_some_plain(pct, n, plain);
    if number::total(w).sum(Binary32::slack()).less(avail) && Binary32::zero().less(growth) {
        let part = distribute::part(take, grow[i], grow);
        assert(!part.nan() && !w[i].nan());
        lemma_part_of_nothing(take, grow, i);
        lemma_add_nothing(w[i], part);
    }
}

/// What a column grows to that gets a little more than it has room for.
proof fn lemma_grown_to(w: Binary32, most: Binary32, part: Binary32, k: int, e: int)
    requires
        0 <= k <= 7,
        0 <= e,
        w.finite(),
        most.finite(),
        part.finite(),
        proper(w),
        proper(most),
        proper(part),
        part.size() <= most.size() - w.size() + k * rounding::gap(most.low()) + e,
        w.sum(part).finite(),
    ensures
        w.sum(part).value() - most.value() <= 16 * rounding::gap(most.low()) + 2 * e,
{
    let gap = rounding::gap(most.low());
    let gaps = k * gap;
    rounding::lemma_gap(most.low());
    assert(gaps <= 7 * gap) by (nonlinear_arith)
        requires
            gaps == k * gap,
            k <= 7,
            0 <= gap,
    ;
    let r = w.sum(part);
    lemma_value(w);
    lemma_value(most);
    lemma_value(part);
    lemma_sum_proper(w, part);
    lemma_value(r);
    let x = w.size() + part.size();
    if x > 0 {
        let m = rounding::round(x, 1);
        rounding::lemma_round_below(x, 1);
        lemma_signed(false, m);
        rounding::lemma_gap(m);
        if m > 0 {
            rounding::lemma_gap_increases(m - 1, m);
        } else {
            rounding::lemma_magnitude_increases(0, 0);
        }
    } else {
        lemma_signed(w.negative() && part.negative(), 0);
        rounding::lemma_magnitude_increases(0, 0);
    }
}

/// Columns without a percentage grow no wider than their content is without wrapping,
/// up to rounding, before all of them are as wide as that: by sixteen times the gap
/// behind that width at most, and where all columns together can grow by less than a
/// pixel, by 2^-71 pixels more. This is about finite numbers.
pub proof fn law_growth(
    avail: Binary32,
    min: Seq<Binary32>,
    max: Seq<Binary32>,
    pct: Seq<Binary32>,
    i: int,
)
    requires
        min.len() == max.len() == pct.len(),
        0 <= i < min.len(),
        pct[i].is_zero(),
        min[i].finite(),
        max[i].finite(),
        proper(min[i]),
        proper(max[i]),
        ({
            let w = distribute::claims(avail, min, pct);
            let growth = number::total(distribute::room(w, max, pct));
            &&& growth.finite()
            &&& avail.difference(number::total(w)).at_most(growth)
        }),
        distribute::distributed(avail, min, max, pct)[i].finite(),
    ensures
        ({
            let w = distribute::claims(avail, min, pct);
            let most = max[i].larger(min[i]);
            let over = distribute::distributed(avail, min, max, pct)[i].value() - most.value();
            let gap = rounding::gap(most.low());
            &&& Binary32::one().at_most(number::total(distribute::room(w, max, pct))) ==> over <= 16
                * gap
            &&& over <= 16 * gap + power2::pow2(78)
        }),
{
    let claimed = distribute::claims(avail, min, pct);
    let assigned = number::total(claimed);
    let slack = Binary32::slack();
    let w = claimed[i];
    let most = max[i].larger(min[i]);
    let r = distribute::distributed(avail, min, max, pct);
    let grow = distribute::room(claimed, max, pct);
    let growth = number::total(grow);
    let extra = avail.difference(assigned);
    assert(w == min[i]);
    lemma_value(min[i]);
    lemma_value(max[i]);
    lemma_less_value(max[i], min[i]);
    rounding::lemma_gap(most.low());
    power2::lemma_pow2_pos(75);
    power2::lemma_pow2_unfold(76);
    power2::lemma_pow2_unfold(77);
    power2::lemma_pow2_unfold(78);
    if assigned.sum(slack).less(avail) {
        law_sum_grows(assigned, slack);
        lemma_difference_proper(avail, assigned);
        assert forall|k: int| 0 <= k < grow.len() implies proper(#[trigger] grow[k]) by {
            lemma_larger_proper(max[k].difference(claimed[k]));
        }
        lemma_total_proper(grow);
        lemma_total_term(grow, i);
        if Binary32::zero().less(growth) {
            assert(extra.smaller(growth) == extra);
            lemma_signed(extra.negative() && extra.opposite().negative(), 0);
            assert(!Binary32::zero().less(extra.difference(extra)));
            let part = distribute::part(extra, grow[i], grow);
            assert(r[i] == w.sum(part));
            assert(part.finite());
            if max[i].less(w) {
                assert(grow[i].is_zero()) by {
                    lemma_no_room(max[i], w);
                }
                lemma_part_of_nothing(extra, grow, i);
                lemma_add_nothing(w, part);
                lemma_value(r[i]);
                assert(r[i].low() == w.low());
            } else {
                lemma_spare(max[i], w);
                rounding::lemma_gap_increases(grow[i].low(), most.low());
                let x = extra.product(grow[i]);
                assert(x.finite()) by {
                    if x.infinite() {
                        lemma_signed(x.negative() != growth.negative(), INFINITE as int);
                    }
                }
                if Binary32::one().at_most(growth) {
                    lemma_part_bound(extra, grow[i], growth);
                    lemma_grown_to(w, max[i], part, 6, 0);
                } else {
                    lemma_small_part_bound(extra, grow[i], growth);
                    lemma_grown_to(w, max[i], part, 7, 3int * power2::pow2(75));
                }
            }
        } else {
            assert(r[i] == w);
        }
    } else if avail.sum(slack).less(assigned) {
        law_relief(avail, min, max, pct, i);
        lemma_less_value(w, r[i]);
    }
}

/// A column that is wider than its content without wrapping has no room to grow.
proof fn lemma_no_room(max: Binary32, w: Binary32)
    requires
        max.finite(),
        w.finite(),
        max.less(w),
    ensures
        max.difference(w).larger(Binary32::zero()).is_zero(),
{
    lemma_less_value(max, w);
    lemma_value(w.opposite());
    let x = w.value() - max.value();
    assert(max.value() + w.opposite().value() == -x);
    rounding::lemma_round_below(x, 1);
    lemma_signed(true, rounding::round(x, 1));
}

}
