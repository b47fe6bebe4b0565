//! What holds of the columns of a table in binary32 numbers, up to rounding.

use vstd::arithmetic::mul;
use vstd::arithmetic::power2;
use vstd::prelude::*;

use crate::binary32::Binary32;
use crate::columns;
use crate::distribute;
use crate::laws;
use crate::number;
use crate::number::Number;
use crate::rounded;
use crate::rounding;
use crate::sums;

verus! {

/// The next magnitude but 2^23 is worth twice as much, or more.
proof fn lemma_twice(m: int)
    requires
        0 <= m,
    ensures
        2 * rounding::magnitude(m) <= rounding::magnitude(m + 0x80_0000),
        rounding::gap(m + 0x80_0000) <= 2 * rounding::gap(m),
{
    rounding::lemma_gap_increases(m, m + 0x80_0000);
    if m >= 0x80_0000 {
        rounding::lemma_doubled(m);
    } else {
        rounding::lemma_magnitude(0, m);
        rounding::lemma_magnitude(0, m + 0x80_0000);
        power2::lemma2_to64();
    }
}

/// Columns that a cell widened hold it, up to rounding.
proof fn lemma_widened_holds(sizes: Seq<Binary32>, from: int, to: int, need: Binary32)
    requires
        0 <= from < to <= sizes.len(),
        to - from <= 0x1_0000,
        rounded::covers(sizes, sizes),
        need.finite(),
        number::total(sizes.subrange(from, to)).finite(),
        forall|c: int|
            from <= c < to ==> (#[trigger] columns::widened(sizes, from, to, need)[c]).finite(),
    ensures
        need.value() - sums::exact_total(columns::widened(sizes, from, to, need).subrange(from, to))
            <= 5 * ((to - from) * rounding::gap(need.low())),
{
    let m = to - from;
    let part = sizes.subrange(from, to);
    let have = number::total(part);
    let after = columns::widened(sizes, from, to, need);
    let wide = after.subrange(from, to);
    let gap = rounding::gap(need.low());
    let error = m * gap;
    assert forall|i: int| 0 <= i < part.len() implies rounded::proper(#[trigger] part[i]) by {
        assert(part[i] == sizes[from + i]);
    }
    rounded::lemma_total_proper(part);
    sums::law_total_error(part);
    rounded::lemma_value(have);
    rounded::lemma_value(need);
    rounding::lemma_gap(need.low());
    rounding::lemma_gap(have.low());
    assert(gap <= error) by (nonlinear_arith)
        requires
            error == m * gap,
            1 <= m,
            0 <= gap,
    ;
    rounded::lemma_less_value(have, need);
    if have.less(need) {
        let missing = need.difference(have);
        let share = missing.quotient(Binary32::count(m));
        sums::lemma_difference_error(need, have);
        sums::lemma_share(missing, m);
        rounded::lemma_value(missing);
        rounded::lemma_value(share);
        rounding::lemma_gap_increases(missing.low(), need.low());
        rounding::lemma_gap_increases(have.low(), need.low());
        rounding::lemma_magnitude_increases(missing.low(), need.low());
        let g1 = rounding::gap(missing.low());
        let g2 = rounding::gap(have.low());
        assert(m * g1 <= error && m * g2 <= error) by (nonlinear_arith)
            requires
                error == m * gap,
                g1 <= gap,
                g2 <= gap,
                1 <= m,
        ;
        let s = share.size();
        let by = Seq::new(m as nat, |i: int| s);
        lemma_whole_equal(by, s);
        let both = Seq::new(m as nat, |i: int| part[i].value() + by[i]);
        sums::lemma_whole_sum(sums::values(part), by, both);
        assert forall|i: int| 0 <= i < m implies sums::close(
            #[trigger] sums::values(wide)[i],
            both[i],
            2 * gap,
        ) by {
            assert(wide[i] == after[from + i]);
            assert(after[from + i].finite());
            assert(part[i] == sizes[from + i]);
            assert(wide[i] == part[i].sum(share));
            assert(rounded::proper(part[i]));
            rounded::lemma_total_term(part, i);
            rounded::lemma_value(part[i]);
            rounded::lemma_less_value(have, part[i]);
            sums::lemma_sum_error(part[i], share);
            let x = part[i].value() + share.value();
            lemma_twice(need.low());
            if x > 0 {
                sums::lemma_round_within(x, need.low() + 0x80_0000);
            } else {
                rounded::lemma_signed(part[i].negative() && share.negative(), 0);
                rounding::lemma_gap_increases(0, need.low());
            }
        }
        sums::lemma_whole_close(sums::values(wide), both, 2 * gap);
        assert(m * (2 * gap) == 2 * (m * gap)) by (nonlinear_arith);
        assert(s * m == m * s) by (nonlinear_arith);
    } else {
        assert(wide =~= part);
        lemma_exact_not_negative(part);
        let g = rounding::gap(have.low());
        if need.rank() > 0 {
            if have.low() <= need.low() + 0x80_0000 {
                lemma_twice(need.low());
                rounding::lemma_gap_increases(have.low(), need.low() + 0x80_0000);
                assert(m * g <= 2 * error) by (nonlinear_arith)
                    requires
                        error == m * gap,
                        g <= 2 * gap,
                        1 <= m,
                ;
            } else {
                lemma_twice(need.low());
                rounding::lemma_magnitude_increases(need.low() + 0x80_0000, have.low());
                let v = have.size();
                assert(2 * (m * g) <= v + 2 * m) by (nonlinear_arith)
                    requires
                        0x80_0000 * (g - 1) <= v,
                        1 <= m <= 0x1_0000,
                        0 <= v,
                ;
                assert(m <= error) by (nonlinear_arith)
                    requires
                        error == m * gap,
                        1 <= gap,
                        1 <= m,
                ;
            }
        }
    }
}

/// The sum of equal integers.
proof fn lemma_whole_equal(s: Seq<int>, x: int)
    requires
        forall|i: int| 0 <= i < s.len() ==> #[trigger] s[i] == x,
    ensures
        sums::whole(s) == s.len() * x,
    decreases s.len(),
{
    if s.len() > 0 {
        let rest = s.drop_last();
        assert(s[s.len() - 1] == x);
        assert forall|i: int| 0 <= i < rest.len() implies #[trigger] rest[i] == x by {
            assert(s[i] == x);
        }
        lemma_whole_equal(rest, x);
        let k = rest.len();
        assert(k * x + x == (k + 1) * x) by (nonlinear_arith);
    } else {
        mul::lemma_mul_basics(x);
    }
}

/// The exact sum of proper numbers is not negative.
proof fn lemma_exact_not_negative(s: Seq<Binary32>)
    requires
        forall|i: int| 0 <= i < s.len() ==> rounded::proper(#[trigger] s[i]),
        number::total(s).finite(),
    ensures
        0 <= sums::exact_total(s),
{
    let zeros = Seq::new(s.len(), |i: int| 0int);
    lemma_whole_equal(zeros, 0);
    assert forall|i: int| 0 <= i < s.len() implies #[trigger] zeros[i] <= sums::values(s)[i] by {
        assert(rounded::proper(s[i]));
        rounded::lemma_total_term(s, i);
        rounded::lemma_value(s[i]);
    }
    sums::lemma_whole_increases(zeros, sums::values(s));
}

/// Wider columns have the larger exact sum.
proof fn lemma_covers_exact(a: Seq<Binary32>, b: Seq<Binary32>, from: int, to: int)
    requires
        0 <= from <= to <= a.len(),
        rounded::covers(a, b),
        rounded::covers(b, b),
        number::total(a.subrange(from, to)).finite(),
    ensures
        sums::exact_total(b.subrange(from, to)) <= sums::exact_total(a.subrange(from, to)),
        number::total(b.subrange(from, to)).finite(),
        forall|c: int| from <= c < to ==> (#[trigger] b[c]).finite(),
{
    let x = a.subrange(from, to);
    let y = b.subrange(from, to);
    assert forall|i: int| 0 <= i < x.len() implies rounded::proper(#[trigger] x[i]) by {
        assert(x[i] == a[from + i]);
    }
    assert forall|i: int| 0 <= i < y.len() implies rounded::proper(#[trigger] y[i]) by {
        assert(y[i] == b[from + i]);
    }
    assert forall|i: int| 0 <= i < y.len() implies (#[trigger] y[i]).at_most(x[i]) by {
        assert(b[from + i].at_most(a[from + i]));
    }
    sums::lemma_total_increases(y, x);
    rounded::lemma_total_proper(y);
    assert forall|i: int| 0 <= i < y.len() implies #[trigger] sums::values(y)[i] <= sums::values(
        x,
    )[i] by {
        assert(rounded::proper(x[i]) && rounded::proper(y[i]) && y[i].at_most(x[i]));
        rounded::lemma_total_term(x, i);
        rounded::lemma_less_value(x[i], y[i]);
    }
    sums::lemma_whole_increases(sums::values(y), sums::values(x));
    assert forall|c: int| from <= c < to implies (#[trigger] b[c]).finite() by {
        assert(rounded::proper(x[c - from]));
        assert(y[c - from].at_most(x[c - from]));
        rounded::lemma_total_term(x, c - from);
    }
}

/// The columns that a table is measured with hold every cell, up to rounding: the least
/// widths its least width, and the widths without wrapping its width without wrapping.
/// They are short of it by five times the gap behind it for each column that the cell
/// spans, at most. This is about finite numbers.
pub proof fn law_columns_hold_cells(facts: Seq<columns::Fact<Binary32>>, n: int, k: int)
    requires
        0 <= k < facts.len(),
        laws::well_placed(facts),
        facts[k].col < n <= 0x1_0000,
        facts[k].min.finite(),
        facts[k].max.finite(),
        ({
            let sizes = columns::column_sizes(facts, n);
            let from = facts[k].col;
            let to = columns::span_end(facts[k], n);
            &&& number::total(sizes.full_min.subrange(from, to)).finite()
            &&& number::total(sizes.full_max.subrange(from, to)).finite()
        }),
    ensures
        ({
            let sizes = columns::column_sizes(facts, n);
            let from = facts[k].col;
            let to = columns::span_end(facts[k], n);
            let least = sums::exact_total(sizes.full_min.subrange(from, to));
            let most = sums::exact_total(sizes.full_max.subrange(from, to));
            &&& facts[k].min.value() - least <= 5 * ((to - from) * rounding::gap(
                facts[k].min.low(),
            ))
            &&& facts[k].max.value() - most <= 5 * ((to - from) * rounding::gap(
                facts[k].max.low(),
            ))
        }),
{
    let fact = facts[k];
    let from = fact.col;
    let to = columns::span_end(fact, n);
    let single = columns::single_sizes(facts, n);
    let spans = columns::span_counts(facts);
    let order = columns::span_order(spans);
    let full = columns::full_sizes(facts, n);
    let sizes = columns::column_sizes(facts, n);
    columns::lemma_span_order(spans);
    power2::lemma2_to64();
    rounded::lemma_single_sizes(facts, n);
    rounded::lemma_with_spans(single, facts, order, 0);
    assert(rounded::covers(sizes.full_max, full.max)) by {
        assert forall|c: int| 0 <= c < n implies rounded::proper(#[trigger] sizes.full_max[c])
            && full.max[c].at_most(sizes.full_max[c]) by {
            assert(rounded::proper(full.max[c]) && rounded::proper(full.min[c]));
        }
    }
    assert(rounded::covers(full.max, full.max));
    rounding::lemma_gap(fact.min.low());
    rounding::lemma_gap(fact.max.low());
    if fact.span == 1 {
        rounded::lemma_single(facts, from);
        assert(columns::lies_in(facts[k], from));
        assert(single.min[from] == columns::column_min(facts, from));
        assert(single.max[from] == columns::column_max(facts, from));
        assert(single.min[from].at_most(full.min[from]));
        assert(single.max[from].at_most(full.max[from]));
        lemma_one_column(sizes.full_min, from);
        lemma_one_column(sizes.full_max, from);
        assert(full.max[from].at_most(sizes.full_max[from]));
        assert(rounded::covers(full.min, full.min));
        assert(rounded::covers(sizes.full_max, sizes.full_max));
        lemma_covers_exact(full.min, full.min, from, to);
        lemma_covers_exact(sizes.full_max, sizes.full_max, from, to);
        assert(sizes.full_min[from].finite() && sizes.full_max[from].finite());
        rounded::lemma_less_value(full.min[from], fact.min);
        rounded::lemma_less_value(sizes.full_max[from], fact.max);
    } else {
        assert(spans[k] > 1);
        let j = choose|j: int| 0 <= j < order.len() && order[j] == k;
        let now = order.take(j + 1);
        let before = columns::with_spans(single, facts, order.take(j));
        let after = columns::with_spans(single, facts, now);
        assert(now.drop_last() =~= order.take(j));
        assert(now.last() == k);
        rounded::lemma_with_spans(single, facts, order, j + 1);
        lemma_prefix(single, facts, order, j);
        lemma_prefix(single, facts, order, j + 1);
        lemma_covers_exact(sizes.full_max, full.max, from, to);
        lemma_covers_exact(full.min, after.min, from, to);
        lemma_covers_exact(full.max, after.max, from, to);
        lemma_one_step(before.min, from, to, fact.min);
        lemma_one_step(before.max, from, to, fact.max);
    }
}

/// A cell that widened its columns, where they are finite after that.
proof fn lemma_one_step(sizes: Seq<Binary32>, from: int, to: int, need: Binary32)
    requires
        0 <= from < to <= sizes.len() <= 0x1_0000,
        rounded::covers(sizes, sizes),
        need.finite(),
        number::total(columns::widened(sizes, from, to, need).subrange(from, to)).finite(),
    ensures
        need.value() - sums::exact_total(columns::widened(sizes, from, to, need).subrange(from, to))
            <= 5 * ((to - from) * rounding::gap(need.low())),
{
    let after = columns::widened(sizes, from, to, need);
    power2::lemma2_to64();
    rounded::lemma_widened(sizes, from, to, need);
    lemma_covers_exact(after, sizes, from, to);
    assert(rounded::covers(after, after));
    lemma_covers_exact(after, after, from, to);
    lemma_widened_holds(sizes, from, to, need);
}

/// The sizes after the first spanning cells are proper.
proof fn lemma_prefix(
    start: columns::Sizes<Binary32>,
    facts: Seq<columns::Fact<Binary32>>,
    order: Seq<int>,
    j: int,
)
    requires
        start.min.len() == start.max.len() == start.pct.len() <= 0x1_0000,
        rounded::covers(start.min, start.min),
        rounded::covers(start.max, start.max),
        rounded::covers(start.pct, start.pct),
        laws::well_placed(facts),
        forall|i: int| 0 <= i < order.len() ==> 0 <= #[trigger] order[i] < facts.len(),
        0 <= j <= order.len(),
    ensures
        ({
            let part = columns::with_spans(start, facts, order.take(j));
            &&& part.min.len() == start.min.len()
            &&& part.max.len() == start.min.len()
            &&& rounded::covers(part.min, part.min)
            &&& rounded::covers(part.max, part.max)
        }),
{
    let first = order.take(j);
    power2::lemma2_to64();
    assert forall|i: int| 0 <= i < first.len() implies 0 <= #[trigger] first[i] < facts.len() by {
        assert(first[i] == order[i]);
    }
    rounded::lemma_with_spans(start, facts, first, 0);
}

/// The sum of one column.
proof fn lemma_one_column(s: Seq<Binary32>, c: int)
    requires
        0 <= c < s.len(),
    ensures
        sums::exact_total(s.subrange(c, c + 1)) == s[c].value(),
{
    let v = sums::values(s.subrange(c, c + 1));
    assert(v.drop_last() =~= Seq::empty());
    assert(sums::whole(v.drop_last()) == 0);
    assert(v.last() == s[c].value());
}

/// What is left of a width for columns, up to rounding.
proof fn lemma_for_columns(width: Binary32, insets: Binary32)
    requires
        rounded::proper(width),
        rounded::proper(insets),
        width.finite(),
        insets.at_most(width),
    ensures
        ({
            let avail = columns::for_columns(width, insets);
            &&& rounded::proper(avail)
            &&& avail.finite()
            &&& avail.low() <= width.low()
            &&& sums::close(
                avail.value(),
                width.value() - insets.value(),
                rounding::gap(width.low()),
            )
        }),
{
    sums::lemma_difference_error(width, insets);
}

/// A table whose width holds its columns' least widths is filled by its columns and
/// its insets: to a hundredth, and up to rounding. Sixty-four times the gap behind the
/// width for columns, or behind what they claim where that is more, is the most for
/// each column, and for the insets it is the gap behind the table's width. No number
/// is infinite.
pub proof fn law_table_filled(
    facts: Seq<columns::Fact<Binary32>>,
    n: int,
    width: Binary32,
    insets: Binary32,
)
    requires
        1 <= n <= 0x80_0000,
        laws::well_placed(facts),
        rounded::proper(width),
        rounded::proper(insets),
        width.finite(),
        insets.at_most(width),
        ({
            let sizes = columns::column_sizes(facts, n);
            let avail = columns::for_columns(width, insets);
            let w = distribute::claims(avail, sizes.min, sizes.pct);
            &&& sums::exact_total(sizes.min) <= width.value() - insets.value()
            &&& number::total(w).finite()
            &&& number::total(distribute::room(w, sizes.max, sizes.pct)).finite()
        }),
        forall|i: int|
            0 <= i < n ==> (#[trigger] columns::fitted(
                columns::column_sizes(facts, n),
                width,
                insets,
            )[i]).finite(),
    ensures
        ({
            let sizes = columns::column_sizes(facts, n);
            let avail = columns::for_columns(width, insets);
            let w = distribute::claims(avail, sizes.min, sizes.pct);
            let slack = Binary32::slack();
            let top = avail.larger(number::total(w)).larger(slack);
            sums::close(
                sums::exact_total(columns::fitted(sizes, width, insets)) + insets.value(),
                width.value(),
                64 * (n * rounding::gap(top.low())) + rounding::gap(width.low()) + slack.value(),
            )
        }),
{
    let sizes = columns::column_sizes(facts, n);
    let avail = columns::for_columns(width, insets);
    lemma_sizes(facts, n);
    lemma_for_columns(width, insets);
    assert forall|i: int| 0 <= i < n implies (#[trigger] distribute::distributed(
        avail,
        sizes.min,
        sizes.max,
        sizes.pct,
    )[i]).finite() by {
        assert(columns::fitted(sizes, width, insets)[i].finite());
    }
    sums::law_fill(avail, sizes.min, sizes.max, sizes.pct);
}

/// What the cells give the columns is proper.
proof fn lemma_sizes(facts: Seq<columns::Fact<Binary32>>, n: int)
    requires
        0 <= n <= 0x80_0000,
        laws::well_placed(facts),
    ensures
        ({
            let sizes = columns::column_sizes(facts, n);
            &&& sizes.min.len() == n
            &&& sizes.max.len() == n
            &&& sizes.pct.len() == n
            &&& sizes.full_max.len() == n
            &&& forall|i: int| 0 <= i < n ==> rounded::proper(#[trigger] sizes.min[i])
            &&& forall|i: int| 0 <= i < n ==> rounded::proper(#[trigger] sizes.full_max[i])
        }),
{
    let sizes = columns::column_sizes(facts, n);
    rounded::law_sizes_sound(facts, n);
    assert forall|i: int| 0 <= i < n implies rounded::proper(#[trigger] sizes.min[i]) by {
        assert(Binary32::zero().at_most(sizes.min[i]));
    }
    assert forall|i: int| 0 <= i < n implies rounded::proper(#[trigger] sizes.full_max[i]) by {
        assert(Binary32::zero().at_most(sizes.min[i]));
        assert(sizes.min[i].at_most(sizes.max[i]));
        assert(sizes.max[i].at_most(sizes.full_max[i]));
    }
}

/// A table without a width of its own takes no more of a definite space than there is
/// or than its columns' least widths need: to a hundredth, and up to rounding as in
/// [`law_table_filled`]. No number is infinite.
pub proof fn law_shrink_to_fit(
    facts: Seq<columns::Fact<Binary32>>,
    n: int,
    space: Binary32,
    insets: Binary32,
)
    requires
        1 <= n <= 0x80_0000,
        laws::well_placed(facts),
        ({
            let sizes = columns::column_sizes(facts, n);
            let avail = columns::for_columns(space, insets);
            let w = distribute::claims(avail, sizes.min, sizes.pct);
            &&& avail.finite()
            &&& number::total(w).finite()
            &&& number::total(distribute::room(w, sizes.max, sizes.pct)).finite()
        }),
        forall|i: int|
            0 <= i < n ==> (#[trigger] columns::fitted(
                columns::column_sizes(facts, n),
                space,
                insets,
            )[i]).finite(),
    ensures
        ({
            let sizes = columns::column_sizes(facts, n);
            let offer = columns::Offer {
                known: None,
                available: columns::Space::Definite(space),
                own: columns::OwnWidth::Unset,
                insets,
            };
            let avail = columns::for_columns(space, insets);
            let w = distribute::claims(avail, sizes.min, sizes.pct);
            let slack = Binary32::slack();
            let top = avail.larger(number::total(w)).larger(slack);
            sums::exact_total(columns::widths(sizes, offer)) - sums::greater(
                avail.value(),
                sums::exact_total(sizes.min),
            ) <= 64 * (n * rounding::gap(top.low())) + slack.value()
        }),
{
    let sizes = columns::column_sizes(facts, n);
    let avail = columns::for_columns(space, insets);
    let w = distribute::claims(avail, sizes.min, sizes.pct);
    let slack = Binary32::slack();
    let top = avail.larger(number::total(w)).larger(slack);
    lemma_sizes(facts, n);
    rounded::lemma_larger_proper(space.difference(insets));
    if number::total(sizes.full_max).at_most(avail) {
        let total = number::total(sizes.full_max);
        rounded::lemma_total_proper(sizes.full_max);
        sums::law_total_error(sizes.full_max);
        rounded::lemma_value(slack);
        rounded::lemma_less_value(avail, total);
        sums::lemma_claims(avail, sizes.min, sizes.pct);
        rounded::lemma_total_proper(w);
        rounding::lemma_gap_increases(total.low(), top.low());
        rounding::lemma_gap(total.low());
        let a = rounding::gap(total.low());
        let b = rounding::gap(top.low());
        assert(n * a <= 64 * (n * b)) by (nonlinear_arith)
            requires
                0 <= a <= b,
                1 <= n,
        ;
    } else {
        assert forall|i: int| 0 <= i < n implies (#[trigger] distribute::distributed(
            avail,
            sizes.min,
            sizes.max,
            sizes.pct,
        )[i]).finite() by {
            assert(columns::fitted(sizes, space, insets)[i].finite());
        }
        sums::law_fill(avail, sizes.min, sizes.max, sizes.pct);
    }
}

}
