//! What the sizes of columns are, told by the cells that they hold.

use vstd::arithmetic::power2;
use vstd::prelude::*;

use crate::binary32::Binary32;
use crate::columns;
use crate::context::TableContext;
use crate::document::InlineSize;
use crate::exact;
use crate::laws;
use crate::number;
use crate::number::Number;
use crate::placement::TableCell;
use crate::rounded;
use crate::tree;

verus! {

/// A table's columns are sized as soon as one of its cells, in whatever row, has a
/// percentage or spans columns.
pub proof fn law_one_cell_decides(cells: Seq<TableCell>, i: int)
    requires
        0 <= i < cells.len(),
        cells[i].specified_width is Percent || cells[i].colspan > 1,
    ensures
        columns::needs_sizing(cells),
{
    assert(columns::percentage(cells[i]) is Some || columns::span(cells[i]) > 1);
}

/// A table is left to the grid where no cell has a percentage or spans columns.
pub proof fn law_plain_cells_decide(cells: Seq<TableCell>)
    requires
        forall|i: int|
            0 <= i < cells.len() ==> !((#[trigger] cells[i]).specified_width is Percent)
                && cells[i].colspan <= 1,
    ensures
        !columns::needs_sizing(cells),
{
    if columns::needs_sizing(cells) {
        let i = choose|i: int|
            0 <= i < cells.len() && (columns::percentage(#[trigger] cells[i]) is Some
                || columns::span(cells[i]) > 1);
        assert(!(cells[i].specified_width is Percent));
    }
}

/// The columns of a table that has some are sized as soon as one of its cells has a
/// percentage or spans columns, and only then.
pub proof fn law_table_sized(ctx: TableContext)
    ensures
        tree::sizes_columns(ctx) <==> ctx.style.columns@.len() > 0 && exists|i: int|
            0 <= i < ctx.cells@.len() && ((#[trigger] ctx.cells@[i]).specified_width is Percent
                || ctx.cells@[i].colspan > 1),
{
    let cells = ctx.cells@;
    if exists|i: int|
        0 <= i < cells.len() && ((#[trigger] cells[i]).specified_width is Percent
            || cells[i].colspan > 1) {
        let i = choose|i: int|
            0 <= i < cells.len() && ((#[trigger] cells[i]).specified_width is Percent
                || cells[i].colspan > 1);
        law_one_cell_decides(cells, i);
    } else {
        law_plain_cells_decide(cells);
    }
}

/// What sizing knows of a cell: its columns, which are one at least, its percentage and
/// what it measures.
pub proof fn law_facts(
    cells: Seq<TableCell>,
    cell_min: Seq<Binary32>,
    cell_max: Seq<Binary32>,
    k: int,
)
    requires
        0 <= k < cells.len(),
    ensures
        ({
            let all = columns::facts(cells, cell_min, cell_max);
            &&& all.len() == cells.len()
            &&& all[k].col == cells[k].col_start
            &&& all[k].span == cells[k].colspan || (cells[k].colspan == 0 && all[k].span == 1)
            &&& 1 <= all[k].span
            &&& match all[k].pct {
                Some(part) => cells[k].specified_width == InlineSize::Percent(part),
                None => !(cells[k].specified_width is Percent),
            }
            &&& all[k].min == cell_min[k]
            &&& all[k].max == cell_max[k]
        }),
{
}

/// The percentages of the cells that lie in a column alone.
proof fn lemma_column_pct(facts: Seq<columns::Fact<Binary32>>, c: int)
    ensures
        rounded::proper(columns::column_pct(facts, c)),
        forall|k: int|
            0 <= k < facts.len() && columns::lies_in(#[trigger] facts[k], c) ==> (
            match facts[k].pct {
                Some(part) => !part.nan() ==> part.at_most(columns::column_pct(facts, c)),
                None => true,
            }),
        columns::column_pct(facts, c) == Binary32::zero() || exists|k: int|
            0 <= k < facts.len() && columns::lies_in(#[trigger] facts[k], c) && facts[k].pct
                == Some(columns::column_pct(facts, c)),
    decreases facts.len(),
{
    if facts.len() > 0 {
        let rest = facts.drop_last();
        let before = columns::column_pct(rest, c);
        let now = columns::column_pct(facts, c);
        lemma_column_pct(rest, c);
        assert forall|k: int|
            0 <= k < facts.len() && columns::lies_in(#[trigger] facts[k], c) implies (
        match facts[k].pct {
            Some(part) => !part.nan() ==> part.at_most(now),
            None => true,
        }) by {
            if k < rest.len() {
                assert(rest[k] == facts[k]);
            }
        }
        if now == before {
            if now != Binary32::zero() {
                let k = choose|k: int|
                    0 <= k < rest.len() && columns::lies_in(#[trigger] rest[k], c) && rest[k].pct
                        == Some(before);
                assert(columns::lies_in(facts[k], c) && facts[k].pct == Some(now));
            }
        } else {
            let k = facts.len() - 1;
            assert(columns::lies_in(facts[k], c) && facts[k].pct == Some(now));
        }
    }
}

/// The widths of the cells that lie in a column alone: it is as wide as one of them.
proof fn lemma_column_widths(facts: Seq<columns::Fact<Binary32>>, c: int)
    ensures
        columns::column_min(facts, c) == Binary32::zero() || exists|k: int|
            0 <= k < facts.len() && columns::lies_in(#[trigger] facts[k], c) && facts[k].min
                == columns::column_min(facts, c),
        columns::column_max(facts, c) == Binary32::zero() || exists|k: int|
            0 <= k < facts.len() && columns::lies_in(#[trigger] facts[k], c) && facts[k].max
                == columns::column_max(facts, c),
    decreases facts.len(),
{
    if facts.len() > 0 {
        let rest = facts.drop_last();
        let last = facts.len() - 1;
        lemma_column_widths(rest, c);
        let min = columns::column_min(facts, c);
        if min == columns::column_min(rest, c) {
            if min != Binary32::zero() {
                let k = choose|k: int|
                    0 <= k < rest.len() && columns::lies_in(#[trigger] rest[k], c) && rest[k].min
                        == min;
                assert(columns::lies_in(facts[k], c) && facts[k].min == min);
            }
        } else {
            assert(columns::lies_in(facts[last], c) && facts[last].min == min);
        }
        let max = columns::column_max(facts, c);
        if max == columns::column_max(rest, c) {
            if max != Binary32::zero() {
                let k = choose|k: int|
                    0 <= k < rest.len() && columns::lies_in(#[trigger] rest[k], c) && rest[k].max
                        == max;
                assert(columns::lies_in(facts[k], c) && facts[k].max == max);
            }
        } else {
            assert(columns::lies_in(facts[last], c) && facts[last].max == max);
        }
    }
}

/// A column is no narrower than any cell that lies in it alone, with wrapping and
/// without, and its percentage is no smaller than the cell's. That holds whatever other
/// cells there are, and with spanning cells too.
pub proof fn law_column_holds_cell(
    cells: Seq<TableCell>,
    cell_min: Seq<Binary32>,
    cell_max: Seq<Binary32>,
    n: int,
    k: int,
)
    requires
        0 <= k < cells.len(),
        cells[k].colspan <= 1,
        cells[k].col_start < n <= usize::MAX,
    ensures
        ({
            let sizes = columns::column_sizes(columns::facts(cells, cell_min, cell_max), n);
            let c = cells[k].col_start as int;
            &&& !cell_min[k].nan() ==> cell_min[k].at_most(sizes.min[c])
            &&& !cell_min[k].nan() ==> cell_min[k].at_most(sizes.full_min[c])
            &&& !cell_max[k].nan() ==> cell_max[k].at_most(sizes.max[c])
            &&& !cell_max[k].nan() ==> cell_max[k].at_most(sizes.full_max[c])
            &&& match cells[k].specified_width {
                InlineSize::Percent(part) => !part.nan() ==> part.at_most(sizes.pct[c]),
                _ => true,
            }
        }),
{
    let all = columns::facts(cells, cell_min, cell_max);
    let c = cells[k].col_start as int;
    let start = columns::single_sizes(all, n);
    let spans = columns::span_counts(all);
    let order = columns::span_order(spans);
    assert(columns::lies_in(all[k], c));
    assert(laws::well_placed(all));
    rounded::lemma_single(all, c);
    lemma_column_pct(all, c);
    rounded::law_sizes_sound(all, n);
    let sizes = columns::column_sizes(all, n);
    assert(sizes.min[c].at_most(sizes.full_min[c]));
    rounded::lemma_single_sizes(all, n);
    columns::lemma_span_order(spans);
    assert forall|j: int| 0 <= j < order.len() implies 0 <= #[trigger] order[j] < all.len() by {
        assert(spans[order[j]] > 1);
    }
    lemma_address_space();
    rounded::lemma_with_spans(start, all, order, 0);
    assert(rounded::covers(sizes.pct, start.pct));
    assert(start.pct[c] == columns::column_pct(all, c));
    assert(start.pct[c].at_most(sizes.pct[c]));
}

proof fn lemma_address_space()
    ensures
        usize::MAX <= power2::pow2(64),
{
    power2::lemma2_to64_rest();
}

/// Spanning cells leave the columns alone that they do not span.
proof fn lemma_untouched<N: Number>(
    start: columns::Sizes<N>,
    facts: Seq<columns::Fact<N>>,
    order: Seq<int>,
    c: int,
)
    requires
        start.min.len() == start.max.len() == start.pct.len(),
        0 <= c < start.min.len(),
        laws::well_placed(facts),
        forall|j: int| 0 <= j < order.len() ==> 0 <= #[trigger] order[j] < facts.len(),
    ensures
        ({
            let full = columns::with_spans(start, facts, order);
            &&& full.min.len() == full.max.len() == full.pct.len() == start.min.len()
            &&& (forall|j: int|
                0 <= j < order.len() ==> !((#[trigger] facts[order[j]]).col <= c
                    < facts[order[j]].col + facts[order[j]].span)) ==> full.min[c] == start.min[c]
                && full.max[c] == start.max[c]
            &&& (forall|j: int|
                0 <= j < order.len() && (#[trigger] facts[order[j]]).col <= c
                    < facts[order[j]].col + facts[order[j]].span ==> facts[order[j]].pct is None)
                ==> full.pct[c] == start.pct[c]
        }),
    decreases order.len(),
{
    if order.len() > 0 {
        let rest = order.drop_last();
        assert forall|j: int| 0 <= j < rest.len() implies 0 <= #[trigger] rest[j] < facts.len() by {
            assert(rest[j] == order[j]);
        }
        lemma_untouched(start, facts, rest, c);
        let last = order.len() - 1;
        assert(order[last] == order.last());
        let fact = facts[order[last]];
        if forall|j: int|
            0 <= j < order.len() ==> !((#[trigger] facts[order[j]]).col <= c < facts[order[j]].col
                + facts[order[j]].span) {
            assert forall|j: int| 0 <= j < rest.len() implies !((#[trigger] facts[rest[j]]).col <= c
                < facts[rest[j]].col + facts[rest[j]].span) by {
                assert(facts[order[j]] == facts[rest[j]]);
            }
            assert(!(fact.col <= c < fact.col + fact.span));
        }
        if forall|j: int|
            0 <= j < order.len() && (#[trigger] facts[order[j]]).col <= c < facts[order[j]].col
                + facts[order[j]].span ==> facts[order[j]].pct is None {
            assert forall|j: int|
                0 <= j < rest.len() && (#[trigger] facts[rest[j]]).col <= c < facts[rest[j]].col
                    + facts[rest[j]].span implies facts[rest[j]].pct is None by {
                assert(facts[order[j]] == facts[rest[j]]);
            }
            assert(fact.col <= c < fact.col + fact.span ==> fact.pct is None);
        }
    }
}

/// A column is as wide as one of the cells that lie in it alone, if there is one: with
/// wrapping and, unless that makes it narrower, without. Its percentage is that of one of
/// these cells, if there is one, unless a spanning cell over it has a percentage. A
/// column that no cell spans with others is measured by these cells alone.
pub proof fn law_column_is_a_cell(
    cells: Seq<TableCell>,
    cell_min: Seq<Binary32>,
    cell_max: Seq<Binary32>,
    n: int,
    c: int,
)
    requires
        0 <= c < n,
    ensures
        ({
            let sizes = columns::column_sizes(columns::facts(cells, cell_min, cell_max), n);
            let zero = Binary32::zero();
            &&& sizes.min[c] == zero || exists|k: int|
                0 <= k < cells.len() && (#[trigger] cells[k]).colspan <= 1 && cells[k].col_start
                    == c && sizes.min[c] == cell_min[k]
            &&& sizes.max[c] == zero || sizes.max[c] == sizes.min[c] || exists|k: int|
                0 <= k < cells.len() && (#[trigger] cells[k]).colspan <= 1 && cells[k].col_start
                    == c && sizes.max[c] == cell_max[k]
            &&& (forall|k: int|
                0 <= k < cells.len() && (#[trigger] cells[k]).colspan > 1 && cells[k].col_start <= c
                    < cells[k].col_start + cells[k].colspan ==> !(
                cells[k].specified_width is Percent)) ==> sizes.pct[c] == zero || exists|k: int|
                0 <= k < cells.len() && (#[trigger] cells[k]).colspan <= 1 && cells[k].col_start
                    == c && cells[k].specified_width == InlineSize::Percent(sizes.pct[c])
            &&& (forall|k: int|
                0 <= k < cells.len() && (#[trigger] cells[k]).colspan > 1 ==> !(cells[k].col_start
                    <= c < cells[k].col_start + cells[k].colspan)) ==> sizes.full_min[c]
                == sizes.min[c] && sizes.full_max[c] == sizes.max[c]
        }),
{
    let all = columns::facts(cells, cell_min, cell_max);
    let sizes = columns::column_sizes(all, n);
    let start = columns::single_sizes(all, n);
    let spans = columns::span_counts(all);
    let order = columns::span_order(spans);
    columns::lemma_span_order(spans);
    assert forall|j: int| 0 <= j < order.len() implies 0 <= #[trigger] order[j] < all.len()
        && cells[order[j]].colspan > 1 by {
        assert(spans[order[j]] > 1);
    }
    assert(laws::well_placed(all));
    lemma_untouched(start, all, order, c);
    lemma_column_widths(all, c);
    lemma_column_pct(all, c);
    let min = sizes.min[c];
    let max = sizes.max[c];
    let pct = start.pct[c];
    if min != Binary32::zero() {
        let k = choose|k: int|
            0 <= k < all.len() && columns::lies_in(#[trigger] all[k], c) && all[k].min == min;
        assert(cells[k].colspan <= 1 && cells[k].col_start == c);
    }
    if max != Binary32::zero() && max != min {
        let k = choose|k: int|
            0 <= k < all.len() && columns::lies_in(#[trigger] all[k], c) && all[k].max == max;
        assert(cells[k].colspan <= 1 && cells[k].col_start == c);
    }
    if pct != Binary32::zero() {
        let k = choose|k: int|
            0 <= k < all.len() && columns::lies_in(#[trigger] all[k], c) && all[k].pct == Some(pct);
        assert(cells[k].colspan <= 1 && cells[k].col_start == c);
        assert(cells[k].specified_width == InlineSize::Percent(pct));
    }
    if forall|k: int|
        0 <= k < cells.len() && (#[trigger] cells[k]).colspan > 1 && cells[k].col_start <= c
            < cells[k].col_start + cells[k].colspan ==> !(cells[k].specified_width is Percent) {
        assert forall|j: int|
            0 <= j < order.len() && (#[trigger] all[order[j]]).col <= c < all[order[j]].col
                + all[order[j]].span implies all[order[j]].pct is None by {
            assert(cells[order[j]].colspan > 1);
        }
        assert(sizes.pct[c] == pct);
    }
    if forall|k: int|
        0 <= k < cells.len() && (#[trigger] cells[k]).colspan > 1 ==> !(cells[k].col_start <= c
            < cells[k].col_start + cells[k].colspan) {
        assert forall|j: int| 0 <= j < order.len() implies !((#[trigger] all[order[j]]).col <= c
            < all[order[j]].col + all[order[j]].span) by {
            assert(cells[order[j]].colspan > 1);
        }
    }
}

/// Whether the columns from `from` to `to` were widened from `x` to `y` for a cell that
/// needs the width `need`: by the same width each, up to what the cell needs, and not at
/// all where they have it. The other columns stay as they are.
pub open spec fn spread(x: Seq<real>, y: Seq<real>, from: int, to: int, need: real) -> bool {
    let have = number::total(x.subrange(from, to));
    &&& y.len() == x.len()
    &&& forall|c: int| 0 <= c < x.len() && !(from <= c < to) ==> #[trigger] y[c] == x[c]
    &&& forall|c: int, d: int|
        from <= c < to && from <= d < to ==> #[trigger] y[c] - x[c] == #[trigger] y[d] - x[d]
    &&& number::total(y.subrange(from, to)) == if have < need {
        need
    } else {
        have
    }
}

proof fn lemma_spread(x: Seq<real>, from: int, to: int, need: real)
    requires
        0 <= from < to <= x.len(),
    ensures
        spread(x, columns::widened(x, from, to, need), from, to, need),
{
    let y = columns::widened(x, from, to, need);
    let have = number::total(x.subrange(from, to));
    if have < need {
        let d = (to - from) as real;
        let share = (need - have) / d;
        assert(share * d == need - have) by (nonlinear_arith)
            requires
                share == (need - have) / d,
                d > 0real,
        ;
        let by = Seq::new((to - from) as nat, |i: int| share);
        exact::lemma_total_equal(by, share);
        exact::lemma_total_sum(x.subrange(from, to), by, y.subrange(from, to));
    }
}

/// The last one of the cells that span most columns widens its columns after all others.
proof fn lemma_widest_last<N: Number>(facts: Seq<columns::Fact<N>>, n: int, k: int)
    requires
        0 <= n,
        0 <= k < facts.len(),
        facts[k].span > 1,
        forall|j: int|
            0 <= j < facts.len() && j != k ==> (#[trigger] facts[j]).span < facts[k].span || (
            facts[j].span == facts[k].span && j < k),
    ensures
        ({
            let gone = columns::Fact { col: n, span: 1, ..facts[k] };
            let a = columns::full_sizes(facts.update(k, gone), n);
            &&& a.min.len() == a.max.len() == a.pct.len() == n
            &&& columns::full_sizes(facts, n) == columns::with_span(a, facts[k])
        }),
{
    let gone = columns::Fact { col: n, span: 1, ..facts[k] };
    let others = facts.update(k, gone);
    let spans = columns::span_counts(facts);
    let spans2 = columns::span_counts(others);
    let order = columns::span_order(spans);
    let order2 = columns::span_order(spans2);
    columns::lemma_span_order(spans);
    columns::lemma_span_order(spans2);
    // The cell comes last.
    assert(spans[k] > 1);
    assert(order.contains(k));
    let at = choose|at: int| 0 <= at < order.len() && order[at] == k;
    let last = order.len() - 1;
    assert(at == last) by {
        if at < last {
            assert(columns::spans_before(spans, order[at], order[last]));
            assert(0 <= order[last] < spans.len());
            assert(facts[order[last]].span == spans[order[last]]);
        }
    }
    let rest = order.drop_last();
    assert forall|j: int| 0 <= j < rest.len() implies #[trigger] rest[j] != k && 0 <= rest[j]
        < spans.len() && spans[rest[j]] > 1 by {
        assert(rest[j] == order[j]);
        assert(columns::spans_before(spans, order[j], order[last]));
        assert(spans[order[j]] > 1);
    }
    assert(columns::is_span_order(spans2, rest)) by {
        assert forall|j: int| 0 <= j < rest.len() implies 0 <= #[trigger] rest[j] < spans2.len()
            && spans2[rest[j]] > 1 by {
            assert(spans2[rest[j]] == spans[rest[j]]);
        }
        assert forall|i: int|
            0 <= i < spans2.len() && #[trigger] spans2[i] > 1 implies rest.contains(i) by {
            assert(i != k);
            assert(spans[i] > 1);
            assert(order.contains(i));
            let j = choose|j: int| 0 <= j < order.len() && order[j] == i;
            assert(rest[j] == i);
        }
        assert forall|i: int, j: int| 0 <= i < j < rest.len() implies columns::spans_before(
            spans2,
            #[trigger] rest[i],
            #[trigger] rest[j],
        ) by {
            assert(columns::spans_before(spans, order[i], order[j]));
            assert(rest[i] != k && rest[j] != k);
        }
    }
    columns::lemma_span_order_unique(spans2, rest, order2);
    // Nothing else changes.
    let start = columns::single_sizes(facts, n);
    let start2 = columns::single_sizes(others, n);
    assert forall|c: int| 0 <= c < n implies start.min[c] == start2.min[c] && start.max[c]
        == start2.max[c] && start.pct[c] == start2.pct[c] by {
        lemma_gone(facts, n, k, c);
    }
    assert(start =~= start2);
    lemma_same_spans(start, facts, others, rest, k);
    assert(order.last() == k);
    lemma_lengths(start, facts, rest);
}

/// A spanning cell, and a cell right of the table, lie in no column of it alone.
proof fn lemma_gone<N: Number>(facts: Seq<columns::Fact<N>>, n: int, k: int, c: int)
    requires
        0 <= k < facts.len(),
        facts[k].span > 1,
        0 <= c < n,
    ensures
        ({
            let others = facts.update(k, columns::Fact { col: n, span: 1, ..facts[k] });
            &&& columns::column_min(facts, c) == columns::column_min(others, c)
            &&& columns::column_max(facts, c) == columns::column_max(others, c)
            &&& columns::column_pct(facts, c) == columns::column_pct(others, c)
        }),
    decreases facts.len(),
{
    let gone = columns::Fact { col: n, span: 1, ..facts[k] };
    let others = facts.update(k, gone);
    if k < facts.len() - 1 {
        lemma_gone(facts.drop_last(), n, k, c);
        assert(others.drop_last() =~= facts.drop_last().update(k, gone));
    } else {
        assert(others.drop_last() =~= facts.drop_last());
    }
}

proof fn lemma_same_spans<N: Number>(
    start: columns::Sizes<N>,
    a: Seq<columns::Fact<N>>,
    b: Seq<columns::Fact<N>>,
    order: Seq<int>,
    k: int,
)
    requires
        a.len() == b.len(),
        forall|j: int| 0 <= j < a.len() && j != k ==> #[trigger] a[j] == b[j],
        forall|j: int| 0 <= j < order.len() ==> 0 <= #[trigger] order[j] < a.len() && order[j] != k,
    ensures
        columns::with_spans(start, a, order) == columns::with_spans(start, b, order),
    decreases order.len(),
{
    if order.len() > 0 {
        let rest = order.drop_last();
        assert forall|j: int| 0 <= j < rest.len() implies 0 <= #[trigger] rest[j] < a.len()
            && rest[j] != k by {
            assert(rest[j] == order[j]);
        }
        lemma_same_spans(start, a, b, rest, k);
        assert(order[order.len() - 1] == order.last());
        assert(a[order.last()] == b[order.last()]);
    }
}

proof fn lemma_lengths<N: Number>(
    start: columns::Sizes<N>,
    facts: Seq<columns::Fact<N>>,
    order: Seq<int>,
)
    ensures
        columns::with_spans(start, facts, order).min.len() == start.min.len(),
        columns::with_spans(start, facts, order).max.len() == start.max.len(),
        columns::with_spans(start, facts, order).pct.len() == start.pct.len(),
    decreases order.len(),
{
    if order.len() > 0 {
        lemma_lengths(start, facts, order.drop_last());
    }
}

/// Cells widen the columns that they span in turn, those that span fewer columns first,
/// and else as they come. So the last one of those that span most columns widens its
/// columns after all others. Spanning cells right of the table do nothing.
pub proof fn law_widest_cell_last(facts: Seq<columns::Fact<real>>, n: int, k: int)
    requires
        0 <= n,
        laws::well_placed(facts),
        0 <= k < facts.len(),
        facts[k].span > 1,
        forall|j: int|
            0 <= j < facts.len() && j != k ==> (#[trigger] facts[j]).span < facts[k].span || (
            facts[j].span == facts[k].span && j < k),
    ensures
        ({
            let gone = columns::Fact { col: n, span: 1, ..facts[k] };
            let a = columns::full_sizes(facts.update(k, gone), n);
            let b = columns::full_sizes(facts, n);
            let from = facts[k].col;
            let to = if from + facts[k].span < n {
                from + facts[k].span
            } else {
                n
            };
            if from < n {
                &&& spread(a.min, b.min, from, to, facts[k].min)
                &&& spread(a.max, b.max, from, to, facts[k].max)
                &&& match facts[k].pct {
                    Some(part) => spread(a.pct, b.pct, from, to, part),
                    None => b.pct == a.pct,
                }
            } else {
                b == a
            }
        }),
{
    let gone = columns::Fact { col: n, span: 1, ..facts[k] };
    let a = columns::full_sizes(facts.update(k, gone), n);
    lemma_widest_last(facts, n, k);
    if facts[k].col < n {
        let from = facts[k].col;
        let to = columns::span_end(facts[k], n);
        lemma_spread(a.min, from, to, facts[k].min);
        lemma_spread(a.max, from, to, facts[k].max);
        match facts[k].pct {
            Some(part) => {
                lemma_spread(a.pct, from, to, part);
            },
            None => {},
        }
    }
}

/// What a cell that spans most columns adds to each of them, in any kind of number: what
/// it needs beyond what they have, over their number.
pub proof fn law_span_share<N: Number>(facts: Seq<columns::Fact<N>>, n: int, k: int, c: int)
    requires
        0 <= n,
        0 <= k < facts.len(),
        facts[k].span > 1,
        forall|j: int|
            0 <= j < facts.len() && j != k ==> (#[trigger] facts[j]).span < facts[k].span || (
            facts[j].span == facts[k].span && j < k),
        0 <= facts[k].col <= c < n,
        c < facts[k].col + facts[k].span,
    ensures
        ({
            let gone = columns::Fact { col: n, span: 1, ..facts[k] };
            let a = columns::full_sizes(facts.update(k, gone), n);
            let b = columns::full_sizes(facts, n);
            let from = facts[k].col;
            let to = if from + facts[k].span < n {
                from + facts[k].span
            } else {
                n
            };
            let min = number::total(a.min.subrange(from, to));
            let max = number::total(a.max.subrange(from, to));
            let pct = number::total(a.pct.subrange(from, to));
            &&& b.min[c] == if min.less(facts[k].min) {
                a.min[c].sum(facts[k].min.difference(min).quotient(N::count(to - from)))
            } else {
                a.min[c]
            }
            &&& b.max[c] == if max.less(facts[k].max) {
                a.max[c].sum(facts[k].max.difference(max).quotient(N::count(to - from)))
            } else {
                a.max[c]
            }
            &&& match facts[k].pct {
                Some(part) => b.pct[c] == if pct.less(part) {
                    a.pct[c].sum(part.difference(pct).quotient(N::count(to - from)))
                } else {
                    a.pct[c]
                },
                None => b.pct[c] == a.pct[c],
            }
        }),
{
    lemma_widest_last(facts, n, k);
}

/// Of the sizes of columns, the least widths for a given width leave spanning cells out,
/// while the others count them. No column is narrower without wrapping than with it, and
/// otherwise as wide as its cells are.
pub proof fn law_sizes_kept_apart(facts: Seq<columns::Fact<real>>, n: int, c: int)
    requires
        0 <= c < n,
        laws::well_placed(facts),
    ensures
        ({
            let single = columns::single_sizes(facts, n);
            let full = columns::full_sizes(facts, n);
            let sizes = columns::column_sizes(facts, n);
            &&& sizes.min[c] == single.min[c]
            &&& sizes.min[c] <= sizes.max[c] && single.max[c] <= sizes.max[c]
            &&& sizes.max[c] == sizes.min[c] || sizes.max[c] == single.max[c]
            &&& sizes.pct[c] == full.pct[c]
            &&& sizes.full_min[c] == full.min[c]
            &&& sizes.full_min[c] <= sizes.full_max[c] && full.max[c] <= sizes.full_max[c]
            &&& sizes.full_max[c] == sizes.full_min[c] || sizes.full_max[c] == full.max[c]
            &&& (forall|k: int| 0 <= k < facts.len() ==> (#[trigger] facts[k]).span == 1) ==> full
                == single
        }),
{
    let spans = columns::span_counts(facts);
    let order = columns::span_order(spans);
    let single = columns::single_sizes(facts, n);
    columns::lemma_span_order(spans);
    lemma_lengths(single, facts, order);
    if forall|k: int| 0 <= k < facts.len() ==> (#[trigger] facts[k]).span == 1 {
        if order.len() > 0 {
            assert(0 <= order[0] < spans.len() && spans[order[0]] > 1);
            assert(facts[order[0]].span == 1);
        }
    }
}

}
