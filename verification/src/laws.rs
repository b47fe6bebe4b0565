//! What holds of column sizing in any kind of number.

use vstd::prelude::*;

use crate::binary32::Binary32;
use crate::columns;
use crate::context::TableContext;
use crate::distribute;
use crate::number::Number;
use crate::tree;

verus! {

/// Whether the sizes of `n` columns agree with each other: nothing is negative, no
/// column is narrower without wrapping than with it, and spanning cells make no column
/// narrower.
pub open spec fn sound<N: Number>(sizes: columns::ColumnSizesView<N>, n: int) -> bool {
    &&& sizes.min.len() == n
    &&& sizes.max.len() == n
    &&& sizes.pct.len() == n
    &&& sizes.full_min.len() == n
    &&& sizes.full_max.len() == n
    &&& forall|c: int|
        #![trigger sizes.min[c]]
        #![trigger sizes.max[c]]
        #![trigger sizes.pct[c]]
        #![trigger sizes.full_min[c]]
        #![trigger sizes.full_max[c]]
        0 <= c < n ==> {
            &&& N::zero().at_most(sizes.pct[c])
            &&& N::zero().at_most(sizes.min[c])
            &&& sizes.min[c].at_most(sizes.max[c])
            &&& sizes.max[c].at_most(sizes.full_max[c])
            &&& sizes.min[c].at_most(sizes.full_min[c])
            &&& sizes.full_min[c].at_most(sizes.full_max[c])
        }
}

/// Whether the cells lie in columns, and span one of them or more.
pub open spec fn well_placed<N>(facts: Seq<columns::Fact<N>>) -> bool {
    forall|k: int|
        0 <= k < facts.len() ==> 0 <= (#[trigger] facts[k]).col && 1 <= facts[k].span
}

/// Distributing a width gives every column a width.
pub proof fn law_distributed_len<N: Number>(avail: N, min: Seq<N>, max: Seq<N>, pct: Seq<N>)
    ensures
        distribute::distributed(avail, min, max, pct).len() == min.len(),
{
}

proof fn lemma_with_spans_len<N: Number>(
    start: columns::Sizes<N>,
    facts: Seq<columns::Fact<N>>,
    order: Seq<int>,
)
    ensures
        columns::with_spans(start, facts, order).min.len() == start.min.len(),
        columns::with_spans(start, facts, order).max.len() == start.max.len(),
        columns::with_spans(start, facts, order).pct.len() == start.pct.len(),
    decreases order.len(),
{
    if order.len() > 0 {
        lemma_with_spans_len(start, facts, order.drop_last());
    }
}

/// Every column of a table gets a width, whatever the table is offered.
pub proof fn law_widths_len<N: Number>(
    facts: Seq<columns::Fact<N>>,
    n: int,
    offer: columns::Offer<N>,
)
    requires
        0 <= n,
    ensures
        columns::widths(columns::column_sizes(facts, n), offer).len() == n,
{
    let spans = columns::span_counts(facts);
    lemma_with_spans_len(columns::single_sizes(facts, n), facts, columns::span_order(spans));
}

/// Whether two measurements agree on the cells that lie in one column alone, and on
/// where all cells lie and which percentages they have.
pub open spec fn same_but_spanning<N>(
    a: Seq<columns::Fact<N>>,
    b: Seq<columns::Fact<N>>,
) -> bool {
    &&& a.len() == b.len()
    &&& forall|k: int|
        #![trigger a[k]]
        #![trigger b[k]]
        0 <= k < a.len() ==> {
            &&& a[k].col == b[k].col
            &&& a[k].span == b[k].span
            &&& a[k].pct == b[k].pct
            &&& a[k].span == 1 ==> a[k].min == b[k].min && a[k].max == b[k].max
        }
}

proof fn lemma_same_single<N: Number>(
    a: Seq<columns::Fact<N>>,
    b: Seq<columns::Fact<N>>,
    c: int,
)
    requires
        same_but_spanning(a, b),
    ensures
        columns::column_min(a, c) == columns::column_min(b, c),
        columns::column_max(a, c) == columns::column_max(b, c),
        columns::column_pct(a, c) == columns::column_pct(b, c),
    decreases a.len(),
{
    if a.len() > 0 {
        assert(a[a.len() - 1] == a.last());
        lemma_same_single(a.drop_last(), b.drop_last(), c);
    }
}

proof fn lemma_same_pct<N: Number>(
    start: columns::Sizes<N>,
    a: Seq<columns::Fact<N>>,
    b: Seq<columns::Fact<N>>,
    order: Seq<int>,
)
    requires
        same_but_spanning(a, b),
        forall|j: int| 0 <= j < order.len() ==> 0 <= #[trigger] order[j] < a.len(),
    ensures
        columns::with_spans(start, a, order).pct == columns::with_spans(start, b, order).pct,
    decreases order.len(),
{
    if order.len() > 0 {
        assert forall|j: int| 0 <= j < order.drop_last().len() implies 0
            <= #[trigger] order.drop_last()[j] < a.len() by {
            assert(order[j] == order.drop_last()[j]);
        }
        lemma_same_pct(start, a, b, order.drop_last());
        lemma_with_spans_len(start, a, order.drop_last());
        lemma_with_spans_len(start, b, order.drop_last());
        assert(order[order.len() - 1] == order.last());
        assert(a[order.last()].col == b[order.last()].col);
    }
}

/// A table that is given a width distributes it by the cells that lie in one column
/// alone, and by all percentages. How wide the content of spanning cells is does not
/// matter.
pub proof fn law_spanning_content_ignored<N: Number>(
    a: Seq<columns::Fact<N>>,
    b: Seq<columns::Fact<N>>,
    n: int,
    width: N,
    insets: N,
)
    requires
        0 <= n,
        same_but_spanning(a, b),
    ensures
        columns::fitted(columns::column_sizes(a, n), width, insets) == columns::fitted(
            columns::column_sizes(b, n),
            width,
            insets,
        ),
{
    let sa = columns::single_sizes(a, n);
    let sb = columns::single_sizes(b, n);
    assert forall|c: int| 0 <= c < n implies sa.min[c] == sb.min[c] && sa.max[c] == sb.max[c]
        && sa.pct[c] == sb.pct[c] by {
        lemma_same_single(a, b, c);
    }
    assert(sa =~= sb);
    let spans = columns::span_counts(a);
    assert(spans =~= columns::span_counts(b));
    columns::lemma_span_order(spans);
    lemma_same_pct(sa, a, b, columns::span_order(spans));
}

/// A table that is settled to a width gets the same column widths as one that has that
/// width of its own, and as one that has the percentage of the space which makes it.
pub proof fn law_width_sources_agree<N: Number>(
    sizes: columns::ColumnSizesView<N>,
    space: N,
    part: N,
    own: columns::OwnWidth<N>,
    available: columns::Space<N>,
    insets: N,
)
    ensures
        ({
            let width = space.product(part);
            let settled = columns::Offer { known: Some(width), available, own, insets };
            let length = columns::Offer {
                known: None,
                available: columns::Space::Definite(space),
                own: columns::OwnWidth::Length(width),
                insets,
            };
            let percent = columns::Offer {
                known: None,
                available: columns::Space::Definite(space),
                own: columns::OwnWidth::Percent(part),
                insets,
            };
            &&& columns::widths(sizes, settled) == columns::widths(sizes, length)
            &&& columns::widths(sizes, settled) == columns::widths(sizes, percent)
        }),
{
}

/// Sizing the columns of a table keeps their number.
pub proof fn law_columns_kept(
    ctx: TableContext,
    cell_min: Seq<Binary32>,
    cell_max: Seq<Binary32>,
    inputs: columns::LayoutInput,
)
    ensures
        tree::with_widths(
            ctx@.style,
            tree::table_widths(ctx, cell_min, cell_max, inputs),
        ).columns.len() == ctx@.style.columns.len(),
{
    let n = ctx@.style.columns.len() as int;
    law_widths_len(
        columns::facts(ctx@.cells, cell_min, cell_max),
        n,
        inputs.offer(ctx@.style.width, n),
    );
}

/// Columns with the same sizes and the same percentage get the same width.
pub proof fn law_equal_columns<N: Number>(
    avail: N,
    min: Seq<N>,
    max: Seq<N>,
    pct: Seq<N>,
    i: int,
    j: int,
)
    requires
        min.len() == max.len() == pct.len(),
        0 <= i < min.len(),
        0 <= j < min.len(),
        min[i] == min[j],
        max[i] == max[j],
        pct[i] == pct[j],
    ensures
        distribute::distributed(avail, min, max, pct)[i] == distribute::distributed(
            avail,
            min,
            max,
            pct,
        )[j],
{
    let w = distribute::claims(avail, min, pct);
    assert(w[i] == w[j]);
    assert(distribute::room(w, max, pct)[i] == distribute::room(w, max, pct)[j]);
    assert(distribute::spare(w, min)[i] == distribute::spare(w, min)[j]);
}

}
