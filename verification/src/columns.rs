//! Sizing the columns of a table.
//!
//! Every cell was measured: the least width that its content needs, and the width
//! that its content takes without wrapping. From these and from the authored
//! percentages come the sizes of the columns and, with the width that the table
//! has, their widths.

use vstd::prelude::*;

use crate::binary32::Binary32;
use crate::distribute;
use crate::document::InlineSize;
use crate::number;
use crate::number::Number;
use crate::placement::TableCell;

verus! {

/// What column sizing knows of a cell.
pub struct Fact<N> {
    /// The column of the cell's left edge.
    pub col: int,
    /// The number of columns that the cell spans.
    pub span: int,
    /// The authored percentage.
    pub pct: Option<N>,
    /// The least width of the content.
    pub min: N,
    /// The width of the content without wrapping.
    pub max: N,
}

/// The number of columns that a cell takes up, which is one at least.
pub open spec fn span(cell: TableCell) -> int {
    if cell.colspan < 1 {
        1
    } else {
        cell.colspan as int
    }
}

/// The percentage that a cell was given.
pub open spec fn percentage(cell: TableCell) -> Option<Binary32> {
    match cell.specified_width {
        InlineSize::Percent(part) => Some(part),
        _ => None,
    }
}

/// What is known of the cells of a table that were measured.
pub open spec fn facts(
    cells: Seq<TableCell>,
    min: Seq<Binary32>,
    max: Seq<Binary32>,
) -> Seq<Fact<Binary32>> {
    Seq::new(
        cells.len(),
        |i: int|
            Fact {
                col: cells[i].col_start as int,
                span: span(cells[i]),
                pct: percentage(cells[i]),
                min: min[i],
                max: max[i],
            },
    )
}

/// Whether a table's columns are sized here: where a cell has a percentage or spans
/// columns. The grid sizes the columns of other tables.
pub open spec fn needs_sizing(cells: Seq<TableCell>) -> bool {
    exists|i: int|
        0 <= i < cells.len() && (percentage(#[trigger] cells[i]) is Some || span(cells[i]) > 1)
}

/// Whether a cell lies in the column `c` alone.
pub open spec fn lies_in<N>(fact: Fact<N>, c: int) -> bool {
    fact.span == 1 && fact.col == c
}

/// The largest minimum of the cells that lie in the column `c` alone.
pub open spec fn column_min<N: Number>(facts: Seq<Fact<N>>, c: int) -> N
    decreases facts.len(),
{
    if facts.len() == 0 {
        N::zero()
    } else {
        let before = column_min(facts.drop_last(), c);
        if lies_in(facts.last(), c) {
            before.larger(facts.last().min)
        } else {
            before
        }
    }
}

/// The largest maximum of the cells that lie in the column `c` alone.
pub open spec fn column_max<N: Number>(facts: Seq<Fact<N>>, c: int) -> N
    decreases facts.len(),
{
    if facts.len() == 0 {
        N::zero()
    } else {
        let before = column_max(facts.drop_last(), c);
        if lies_in(facts.last(), c) {
            before.larger(facts.last().max)
        } else {
            before
        }
    }
}

/// The largest percentage of the cells that lie in the column `c` alone.
pub open spec fn column_pct<N: Number>(facts: Seq<Fact<N>>, c: int) -> N
    decreases facts.len(),
{
    if facts.len() == 0 {
        N::zero()
    } else {
        let before = column_pct(facts.drop_last(), c);
        match facts.last().pct {
            Some(part) => if lies_in(facts.last(), c) {
                before.larger(part)
            } else {
                before
            },
            None => before,
        }
    }
}

/// Sizes of columns that spanning cells widen.
#[verifier::ext_equal]
pub struct Sizes<N> {
    pub min: Seq<N>,
    pub max: Seq<N>,
    pub pct: Seq<N>,
}

/// The sizes that the cells give their columns which lie in one column alone.
pub open spec fn single_sizes<N: Number>(facts: Seq<Fact<N>>, n: int) -> Sizes<N> {
    Sizes {
        min: Seq::new(n as nat, |c: int| column_min(facts, c)),
        max: Seq::new(n as nat, |c: int| column_max(facts, c)),
        pct: Seq::new(n as nat, |c: int| column_pct(facts, c)),
    }
}

/// The columns from `from` to `to` after they were widened, in equal shares, to
/// `need` together, where they are not as wide yet.
pub open spec fn widened<N: Number>(sizes: Seq<N>, from: int, to: int, need: N) -> Seq<N> {
    let have = number::total(sizes.subrange(from, to));
    if have.less(need) {
        let share = need.difference(have).quotient(N::count(to - from));
        Seq::new(
            sizes.len(),
            |i: int|
                if from <= i < to {
                    sizes[i].sum(share)
                } else {
                    sizes[i]
                },
        )
    } else {
        sizes
    }
}

/// The column after the last one of `n` that a cell spans.
pub open spec fn span_end<N>(fact: Fact<N>, n: int) -> int {
    if fact.col + fact.span < n {
        fact.col + fact.span
    } else {
        n
    }
}

/// The sizes after a spanning cell widened the columns that it spans.
pub open spec fn with_span<N: Number>(sizes: Sizes<N>, fact: Fact<N>) -> Sizes<N> {
    let end = span_end(fact, sizes.min.len() as int);
    if fact.col >= end {
        sizes
    } else {
        Sizes {
            min: widened(sizes.min, fact.col, end, fact.min),
            max: widened(sizes.max, fact.col, end, fact.max),
            pct: match fact.pct {
                Some(part) => widened(sizes.pct, fact.col, end, part),
                None => sizes.pct,
            },
        }
    }
}

/// The sizes after the given cells widened the columns that they span, in turn.
pub open spec fn with_spans<N: Number>(
    sizes: Sizes<N>,
    facts: Seq<Fact<N>>,
    order: Seq<int>,
) -> Sizes<N>
    decreases order.len(),
{
    if order.len() == 0 {
        sizes
    } else {
        with_span(with_spans(sizes, facts, order.drop_last()), facts[order.last()])
    }
}

/// Whether the cell `i` widens columns before the cell `j` does: cells that span
/// fewer columns come first, and then those that come first in the table.
pub open spec fn spans_before(spans: Seq<int>, i: int, j: int) -> bool {
    spans[i] < spans[j] || (spans[i] == spans[j] && i < j)
}

/// Whether `order` lists the cells that span several columns, each of them once, as
/// they widen columns.
pub open spec fn is_span_order(spans: Seq<int>, order: Seq<int>) -> bool {
    &&& forall|k: int| 0 <= k < order.len() ==> 0 <= #[trigger] order[k] < spans.len()
        && spans[order[k]] > 1
    &&& forall|i: int|
        0 <= i < spans.len() && #[trigger] spans[i] > 1 ==> order.contains(i)
    &&& forall|j: int, k: int|
        0 <= j < k < order.len() ==> spans_before(spans, #[trigger] order[j], #[trigger] order[k])
}

/// The order in which the cells that span several columns widen them.
pub open spec fn span_order(spans: Seq<int>) -> Seq<int> {
    choose|order: Seq<int>| is_span_order(spans, order)
}

/// The number of columns that each cell spans.
pub open spec fn span_counts<N>(facts: Seq<Fact<N>>) -> Seq<int> {
    Seq::new(facts.len(), |i: int| facts[i].span)
}

/// The sizes that all cells give their columns.
pub open spec fn full_sizes<N: Number>(facts: Seq<Fact<N>>, n: int) -> Sizes<N> {
    with_spans(single_sizes(facts, n), facts, span_order(span_counts(facts)))
}

/// The larger of two widths, column by column.
pub open spec fn at_least<N: Number>(a: Seq<N>, b: Seq<N>) -> Seq<N> {
    Seq::new(a.len(), |i: int| a[i].larger(b[i]))
}

/// What the columns of a table were found to need.
#[verifier::ext_equal]
pub struct ColumnSizesView<N> {
    /// The least widths, by the cells that lie in one column alone.
    pub min: Seq<N>,
    /// The widths without wrapping, by the cells that lie in one column alone.
    pub max: Seq<N>,
    /// The percentages, by all cells.
    pub pct: Seq<N>,
    /// The least widths, by all cells.
    pub full_min: Seq<N>,
    /// The widths without wrapping, by all cells.
    pub full_max: Seq<N>,
}

/// What the `n` columns of a table need. Columns are no narrower without wrapping
/// than with it.
pub open spec fn column_sizes<N: Number>(facts: Seq<Fact<N>>, n: int) -> ColumnSizesView<N> {
    let single = single_sizes(facts, n);
    let full = full_sizes(facts, n);
    ColumnSizesView {
        min: single.min,
        max: at_least(single.max, single.min),
        pct: full.pct,
        full_min: full.min,
        full_max: at_least(full.max, full.min),
    }
}

/// The space that a table is offered.
#[derive(Clone, Copy, Debug, PartialEq, Eq, Structural)]
pub enum AvailableSpace {
    Definite(Binary32),
    MinContent,
    MaxContent,
}

/// The space that a table is offered, in any kind of number.
pub enum Space<N> {
    Definite(N),
    MinContent,
    MaxContent,
}

/// The width that a table was given, where it is none that depends on its content.
pub enum OwnWidth<N> {
    Length(N),
    Percent(N),
    Unset,
}

/// What the widths of columns depend on besides their sizes.
pub struct Offer<N> {
    /// The table's width, where it is settled.
    pub known: Option<N>,
    pub available: Space<N>,
    pub own: OwnWidth<N>,
    /// The part of the table's width that no column takes up.
    pub insets: N,
}

/// The table's own width in a definite space.
pub open spec fn own_width<N: Number>(own: OwnWidth<N>, basis: N) -> Option<N> {
    match own {
        OwnWidth::Length(width) => Some(width),
        OwnWidth::Percent(part) => Some(basis.product(part)),
        OwnWidth::Unset => None,
    }
}

/// What is left of a width for columns.
pub open spec fn for_columns<N: Number>(width: N, insets: N) -> N {
    width.difference(insets).larger(N::zero())
}

/// The widths of the columns of a table that is `width` wide.
pub open spec fn fitted<N: Number>(sizes: ColumnSizesView<N>, width: N, insets: N) -> Seq<N> {
    distribute::distributed(for_columns(width, insets), sizes.min, sizes.max, sizes.pct)
}

/// The widths of the columns of a table.
///
/// A table whose width is settled, or that has a width of its own, fills it. While a
/// table is measured, its columns are as wide as all cells need. A table without a
/// width of its own is as wide as all cells need without wrapping, but no wider than
/// the space.
pub open spec fn widths<N: Number>(sizes: ColumnSizesView<N>, offer: Offer<N>) -> Seq<N> {
    match offer.known {
        Some(width) => fitted(sizes, width, offer.insets),
        None => match offer.available {
            Space::MinContent => sizes.full_min,
            Space::MaxContent => sizes.full_max,
            Space::Definite(space) => match own_width(offer.own, space) {
                Some(width) => fitted(sizes, width, offer.insets),
                None => if number::total(sizes.full_max).at_most(
                    for_columns(space, offer.insets),
                ) {
                    sizes.full_max
                } else {
                    fitted(sizes, space, offer.insets)
                },
            },
        },
    }
}

/// The part of a table's width that no column takes up: its borders, its padding and
/// the gaps between its columns.
pub open spec fn insets<N: Number>(
    border_left: N,
    border_right: N,
    padding_left: N,
    padding_right: N,
    gap: N,
    n: int,
) -> N {
    border_left.sum(border_right).sum(padding_left).sum(padding_right).sum(
        gap.product(N::count(n).difference(N::one())),
    )
}

/// A request to lay out a table, with the table's borders, padding and gap resolved
/// to pixels.
#[derive(Clone, Copy, Debug, PartialEq, Eq, Structural)]
pub struct LayoutInput {
    pub known_width: Option<Binary32>,
    pub available_width: AvailableSpace,
    pub border_left: Binary32,
    pub border_right: Binary32,
    pub padding_left: Binary32,
    pub padding_right: Binary32,
    pub gap: Binary32,
}

impl LayoutInput {
    /// What the widths of `n` columns depend on, where the table's authored width is
    /// `width`.
    pub open spec fn offer(self, width: InlineSize, n: int) -> Offer<Binary32> {
        Offer {
            known: self.known_width,
            available: match self.available_width {
                AvailableSpace::Definite(space) => Space::Definite(space),
                AvailableSpace::MinContent => Space::MinContent,
                AvailableSpace::MaxContent => Space::MaxContent,
            },
            own: match width {
                InlineSize::Length(length) => OwnWidth::Length(length),
                InlineSize::Percent(part) => OwnWidth::Percent(part),
                _ => OwnWidth::Unset,
            },
            insets: insets(
                self.border_left,
                self.border_right,
                self.padding_left,
                self.padding_right,
                self.gap,
                n,
            ),
        }
    }
}

/// What the columns of a table need.
#[derive(Debug)]
pub struct ColumnSizes {
    pub min: Vec<Binary32>,
    pub max: Vec<Binary32>,
    pub pct: Vec<Binary32>,
    pub full_min: Vec<Binary32>,
    pub full_max: Vec<Binary32>,
}

impl View for ColumnSizes {
    type V = ColumnSizesView<Binary32>;

    open spec fn view(&self) -> ColumnSizesView<Binary32> {
        ColumnSizesView {
            min: self.min@,
            max: self.max@,
            pct: self.pct@,
            full_min: self.full_min@,
            full_max: self.full_max@,
        }
    }
}

fn span_of(cell: TableCell) -> (r: usize)
    ensures
        r == span(cell),
        1 <= r <= u16::MAX,
{
    if cell.colspan < 1 {
        1
    } else {
        cell.colspan as usize
    }
}

fn percentage_of(cell: TableCell) -> (r: Option<Binary32>)
    ensures
        r == percentage(cell),
{
    match cell.specified_width {
        InlineSize::Percent(part) => Some(part),
        _ => None,
    }
}

/// Whether the columns of a table with the given cells are sized here.
pub fn should_size(cells: &[TableCell]) -> (r: bool)
    ensures
        r == needs_sizing(cells@),
{
    let mut i: usize = 0;
    while i < cells.len()
        invariant
            i <= cells.len(),
            forall|k: int|
                0 <= k < i ==> percentage(#[trigger] cells@[k]) is None && span(cells@[k]) <= 1,
        decreases cells.len() - i,
    {
        if percentage_of(cells[i]).is_some() || span_of(cells[i]) > 1 {
            assert(percentage(cells@[i as int]) is Some || span(cells@[i as int]) > 1);
            return true;
        }
        i = i + 1;
    }
    false
}

/// A list of zeros.
fn zeros(n: usize) -> (r: Vec<Binary32>)
    ensures
        r@ == Seq::new(n as nat, |i: int| Binary32::zero()),
{
    let mut r: Vec<Binary32> = Vec::new();
    let mut i: usize = 0;
    while i < n
        invariant
            i <= n,
            r@ == Seq::new(i as nat, |k: int| Binary32::zero()),
        decreases n - i,
    {
        r.push(Binary32::nil());
        i = i + 1;
        assert(r@ =~= Seq::new(i as nat, |k: int| Binary32::zero()));
    }
    r
}

/// The least widths, the widths without wrapping and the percentages of columns, by
/// the cells that lie in one column alone.
fn single_sizes_of(
    cells: &[TableCell],
    cell_min: &[Binary32],
    cell_max: &[Binary32],
    n: usize,
) -> (r: (Vec<Binary32>, Vec<Binary32>, Vec<Binary32>))
    requires
        cells.len() == cell_min.len() == cell_max.len(),
    ensures
        ({
            let sizes = single_sizes(facts(cells@, cell_min@, cell_max@), n as int);
            r.0@ == sizes.min && r.1@ == sizes.max && r.2@ == sizes.pct
        }),
{
    let ghost all = facts(cells@, cell_min@, cell_max@);
    let mut min: Vec<Binary32> = zeros(n);
    let mut max: Vec<Binary32> = zeros(n);
    let mut pct: Vec<Binary32> = zeros(n);
    let mut i: usize = 0;
    assert(min@ =~= single_sizes(all.take(0), n as int).min);
    assert(max@ =~= single_sizes(all.take(0), n as int).max);
    assert(pct@ =~= single_sizes(all.take(0), n as int).pct);
    while i < cells.len()
        invariant
            i <= cells.len(),
            cells.len() == cell_min.len() == cell_max.len(),
            all == facts(cells@, cell_min@, cell_max@),
            min@ == single_sizes(all.take(i as int), n as int).min,
            max@ == single_sizes(all.take(i as int), n as int).max,
            pct@ == single_sizes(all.take(i as int), n as int).pct,
        decreases cells.len() - i,
    {
        let ghost seen = all.take(i as int);
        let ghost now = all.take(i + 1);
        assert(now.drop_last() =~= seen);
        assert(now.last() == all[i as int]);
        let col: usize = cells[i].col_start as usize;
        if span_of(cells[i]) == 1 && col < n {
            min.set(col, min[col].max(cell_min[i]));
            max.set(col, max[col].max(cell_max[i]));
            match percentage_of(cells[i]) {
                Some(part) => {
                    pct.set(col, pct[col].max(part));
                },
                None => {},
            }
        }
        i = i + 1;
        assert(min@ =~= single_sizes(now, n as int).min);
        assert(max@ =~= single_sizes(now, n as int).max);
        assert(pct@ =~= single_sizes(now, n as int).pct);
    }
    assert(all.take(cells.len() as int) =~= all);
    (min, max, pct)
}

/// There is one order at most.
pub proof fn lemma_span_order_unique(spans: Seq<int>, a: Seq<int>, b: Seq<int>)
    requires
        is_span_order(spans, a),
        is_span_order(spans, b),
    ensures
        a == b,
{
    assert forall|i: int| a.contains(i) implies b.contains(i) by {
        let k = choose|k: int| 0 <= k < a.len() && a[k] == i;
        assert(0 <= a[k] < spans.len() && spans[a[k]] > 1);
        assert(spans[i] > 1);
    }
    assert forall|i: int| b.contains(i) implies a.contains(i) by {
        let k = choose|k: int| 0 <= k < b.len() && b[k] == i;
        assert(0 <= b[k] < spans.len() && spans[b[k]] > 1);
        assert(spans[i] > 1);
    }
    lemma_sorted_unique(spans, a, b);
}

/// Whether a list is sorted by the order in which cells widen columns.
spec fn sorted(spans: Seq<int>, order: Seq<int>) -> bool {
    forall|j: int, k: int|
        0 <= j < k < order.len() ==> spans_before(spans, #[trigger] order[j], #[trigger] order[k])
}

proof fn lemma_sorted_unique(spans: Seq<int>, a: Seq<int>, b: Seq<int>)
    requires
        sorted(spans, a),
        sorted(spans, b),
        forall|i: int| a.contains(i) <==> b.contains(i),
    ensures
        a == b,
    decreases a.len(),
{
    if a.len() == 0 {
        if b.len() > 0 {
            assert(b.contains(b[0]));
        }
        assert(a =~= b);
    } else {
        assert(a.contains(a.last()));
        let kb = choose|k: int| 0 <= k < b.len() && b[k] == a.last();
        assert(b.contains(b.last()));
        let ka = choose|k: int| 0 <= k < a.len() && a[k] == b.last();
        assert(a.last() == b.last()) by {
            if kb < b.len() - 1 && ka < a.len() - 1 {
                assert(spans_before(spans, b[kb], b[b.len() - 1]));
                assert(spans_before(spans, a[ka], a[a.len() - 1]));
            }
        }
        lemma_sorted_drop_last(spans, a);
        lemma_sorted_drop_last(spans, b);
        assert forall|i: int| a.drop_last().contains(i) <==> b.drop_last().contains(i) by {
            assert(a.contains(i) <==> b.contains(i));
        }
        lemma_sorted_unique(spans, a.drop_last(), b.drop_last());
        assert(a =~= a.drop_last().push(a.last()));
        assert(b =~= b.drop_last().push(b.last()));
    }
}

proof fn lemma_sorted_drop_last(spans: Seq<int>, a: Seq<int>)
    requires
        a.len() > 0,
        sorted(spans, a),
    ensures
        sorted(spans, a.drop_last()),
        forall|i: int| a.drop_last().contains(i) <==> a.contains(i) && i != a.last(),
{
    assert forall|i: int| a.drop_last().contains(i) implies a.contains(i) && i != a.last() by {
        let k = choose|k: int| 0 <= k < a.drop_last().len() && a.drop_last()[k] == i;
        assert(a[k] == i);
        assert(spans_before(spans, a[k], a[a.len() - 1]));
    }
    assert forall|i: int| a.contains(i) && i != a.last() implies a.drop_last().contains(i) by {
        let k = choose|k: int| 0 <= k < a.len() && a[k] == i;
        assert(a.drop_last()[k] == i);
    }
}

/// A list of places as integers.
spec fn places(order: Seq<usize>) -> Seq<int> {
    Seq::new(order.len(), |k: int| order[k] as int)
}

/// How many columns each cell spans.
spec fn cell_spans(cells: Seq<TableCell>) -> Seq<int> {
    Seq::new(cells.len(), |i: int| span(cells[i]))
}

/// Inserting the next cell behind all that span no more columns keeps the order.
proof fn lemma_insert(spans: Seq<int>, i: int, order: Seq<int>, at: int)
    requires
        0 <= i < spans.len(),
        spans[i] > 1,
        is_span_order(spans.take(i), order),
        0 <= at <= order.len(),
        forall|k: int| 0 <= k < at ==> spans[#[trigger] order[k]] <= spans[i],
        forall|k: int| at <= k < order.len() ==> spans[#[trigger] order[k]] > spans[i],
    ensures
        is_span_order(spans.take(i + 1), order.insert(at, i)),
{
    let now = spans.take(i + 1);
    let seen = spans.take(i);
    let new = order.insert(at, i);
    assert forall|k: int| 0 <= k < new.len() implies 0 <= #[trigger] new[k] < now.len()
        && now[new[k]] > 1 by {
        if k < at {
            assert(new[k] == order[k]);
            assert(seen[order[k]] > 1);
        } else if k > at {
            assert(new[k] == order[k - 1]);
            assert(seen[order[k - 1]] > 1);
        }
    }
    assert forall|j: int| 0 <= j < now.len() && #[trigger] now[j] > 1 implies new.contains(j) by {
        if j == i {
            assert(new[at] == i);
        } else {
            assert(seen[j] > 1);
            let k = choose|k: int| 0 <= k < order.len() && order[k] == j;
            assert(new[if k < at {
                k
            } else {
                k + 1
            }] == j);
        }
    }
    assert forall|j: int, k: int| 0 <= j < k < new.len() implies spans_before(
        now,
        #[trigger] new[j],
        #[trigger] new[k],
    ) by {
        let jo = if j < at {
            j
        } else {
            j - 1
        };
        let ko = if k < at {
            k
        } else {
            k - 1
        };
        if j == at {
            assert(new[k] == order[ko]);
            assert(0 <= order[ko] < seen.len());
        } else if k == at {
            assert(new[j] == order[jo]);
            assert(0 <= order[jo] < seen.len());
        } else {
            assert(new[j] == order[jo] && new[k] == order[ko]);
            assert(spans_before(seen, order[jo], order[ko]));
        }
    }
}

/// The cells that span several columns, in the order in which they widen them.
fn span_order_of(cells: &[TableCell]) -> (order: Vec<usize>)
    ensures
        places(order@) == span_order(cell_spans(cells@)),
        forall|k: int| 0 <= k < order.len() ==> #[trigger] order@[k] < cells.len(),
{
    let ghost spans = cell_spans(cells@);
    let mut order: Vec<usize> = Vec::new();
    let mut i: usize = 0;
    assert(is_span_order(spans.take(0), places(order@)));
    while i < cells.len()
        invariant
            i <= cells.len(),
            spans == cell_spans(cells@),
            is_span_order(spans.take(i as int), places(order@)),
        decreases cells.len() - i,
    {
        let own: usize = span_of(cells[i]);
        let ghost seen = spans.take(i as int);
        if own > 1 {
            let mut at: usize = order.len();
            assert forall|k: int| 0 <= k < order.len() implies #[trigger] order@[k] < i by {
                assert(0 <= places(order@)[k] < seen.len());
            }
            while at > 0 && span_of(cells[order[at - 1]]) > own
                invariant
                    at <= order.len(),
                    i < cells.len(),
                    spans == cell_spans(cells@),
                    own == spans[i as int],
                    seen == spans.take(i as int),
                    is_span_order(seen, places(order@)),
                    forall|k: int| 0 <= k < order.len() ==> #[trigger] order@[k] < i,
                    forall|k: int|
                        at <= k < order.len() ==> spans[#[trigger] places(order@)[k]] > own,
                decreases at,
            {
                at = at - 1;
            }
            proof {
                assert forall|k: int| 0 <= k < at implies spans[#[trigger] places(order@)[k]]
                    <= own by {
                    if k < at - 1 {
                        assert(spans_before(seen, places(order@)[k], places(order@)[at - 1]));
                        assert(0 <= places(order@)[k] < seen.len());
                        assert(0 <= places(order@)[at - 1] < seen.len());
                    }
                }
                lemma_insert(spans, i as int, places(order@), at as int);
            }
            let ghost before = order@;
            order.insert(at, i);
            assert(places(order@) =~= places(before).insert(at as int, i as int));
        } else {
            proof {
                lemma_skip(spans, i as int, places(order@));
            }
        }
        i = i + 1;
    }
    assert(spans.take(cells.len() as int) =~= spans);
    proof {
        lemma_span_order_unique(spans, span_order(spans), places(order@));
        assert forall|k: int| 0 <= k < order.len() implies #[trigger] order@[k] < cells.len() by {
            assert(0 <= places(order@)[k] < spans.len());
        }
    }
    order
}

/// The sum of the items from `from` to `to`.
fn total_between(items: &Vec<Binary32>, from: usize, to: usize) -> (r: Binary32)
    requires
        from <= to <= items.len(),
    ensures
        r == number::total(items@.subrange(from as int, to as int)),
{
    let mut r: Binary32 = Binary32::nil();
    let mut i: usize = from;
    assert(items@.subrange(from as int, from as int) =~= Seq::empty());
    while i < to
        invariant
            from <= i <= to <= items.len(),
            r == number::total(items@.subrange(from as int, i as int)),
        decreases to - i,
    {
        assert(items@.subrange(from as int, i + 1).drop_last() =~= items@.subrange(
            from as int,
            i as int,
        ));
        r = r.plus(items[i]);
        i = i + 1;
    }
    r
}

/// Widens the columns from `from` to `to`, in equal shares, to `need` together, where
/// they are not as wide yet.
fn widen(sizes: &mut Vec<Binary32>, from: usize, to: usize, need: Binary32)
    requires
        from <= to <= old(sizes).len(),
    ensures
        final(sizes)@ == widened(old(sizes)@, from as int, to as int, need),
        final(sizes).len() == old(sizes).len(),
{
    let ghost before = sizes@;
    let have: Binary32 = total_between(sizes, from, to);
    if have.lt(need) {
        let share: Binary32 = need.minus(have).over(Binary32::from_count(to - from));
        let mut i: usize = from;
        while i < to
            invariant
                from <= i <= to <= sizes.len(),
                sizes.len() == before.len(),
                forall|k: int| 0 <= k < from || i <= k < sizes.len() ==> sizes@[k] == before[k],
                forall|k: int| from <= k < i ==> sizes@[k] == before[k].sum(share),
            decreases to - i,
        {
            let width: Binary32 = sizes[i].plus(share);
            sizes.set(i, width);
            i = i + 1;
        }
        assert(sizes@ =~= widened(before, from as int, to as int, need));
    }
}

/// The larger of two widths, column by column.
fn at_least_of(a: &Vec<Binary32>, b: &Vec<Binary32>) -> (r: Vec<Binary32>)
    requires
        a.len() == b.len(),
    ensures
        r@ == at_least(a@, b@),
{
    let mut r: Vec<Binary32> = Vec::new();
    let mut i: usize = 0;
    while i < a.len()
        invariant
            i <= a.len() == b.len(),
            r@ == at_least(a@, b@).take(i as int),
        decreases a.len() - i,
    {
        r.push(a[i].max(b[i]));
        i = i + 1;
        assert(r@ =~= at_least(a@, b@).take(i as int));
    }
    assert(r@ =~= at_least(a@, b@));
    r
}

/// A copy of a list.
fn copy(items: &Vec<Binary32>) -> (r: Vec<Binary32>)
    ensures
        r@ == items@,
{
    let mut r: Vec<Binary32> = Vec::new();
    let mut i: usize = 0;
    while i < items.len()
        invariant
            i <= items.len(),
            r@ == items@.take(i as int),
        decreases items.len() - i,
    {
        r.push(items[i]);
        i = i + 1;
        assert(r@ =~= items@.take(i as int));
    }
    assert(r@ =~= items@);
    r
}

/// Finds what the `n` columns of a table need, from its measured cells.
pub fn aggregate(
    cells: &[TableCell],
    cell_min: &[Binary32],
    cell_max: &[Binary32],
    n: usize,
) -> (sizes: ColumnSizes)
    requires
        cells.len() == cell_min.len() == cell_max.len(),
    ensures
        sizes@ == column_sizes(facts(cells@, cell_min@, cell_max@), n as int),
        sizes.min.len() == sizes.max.len() == sizes.pct.len() == n,
{
    let ghost all = facts(cells@, cell_min@, cell_max@);
    let (min, max, single_pct): (Vec<Binary32>, Vec<Binary32>, Vec<Binary32>) = single_sizes_of(
        cells,
        cell_min,
        cell_max,
        n,
    );
    let mut full_min: Vec<Binary32> = copy(&min);
    let mut full_max: Vec<Binary32> = copy(&max);
    let mut pct: Vec<Binary32> = single_pct;
    let order: Vec<usize> = span_order_of(cells);
    let ghost start = single_sizes(all, n as int);
    assert(cell_spans(cells@) =~= span_counts(all));
    let mut k: usize = 0;
    assert(places(order@).take(0) =~= Seq::empty());
    while k < order.len()
        invariant
            k <= order.len(),
            cells.len() == cell_min.len() == cell_max.len(),
            all == facts(cells@, cell_min@, cell_max@),
            forall|j: int| 0 <= j < order.len() ==> #[trigger] order@[j] < cells.len(),
            full_min.len() == n,
            full_max.len() == n,
            pct.len() == n,
            (Sizes { min: full_min@, max: full_max@, pct: pct@ }) == with_spans(
                start,
                all,
                places(order@).take(k as int),
            ),
        decreases order.len() - k,
    {
        let ghost now = places(order@).take(k + 1);
        assert(now.drop_last() =~= places(order@).take(k as int));
        let i: usize = order[k];
        assert(now.last() == i);
        let ghost before = Sizes { min: full_min@, max: full_max@, pct: pct@ };
        let col: usize = cells[i].col_start as usize;
        let span: usize = span_of(cells[i]);
        let end: usize = if col < n && span < n - col {
            col + span
        } else {
            n
        };
        if col < end {
            widen(&mut full_min, col, end, cell_min[i]);
            widen(&mut full_max, col, end, cell_max[i]);
            match percentage_of(cells[i]) {
                Some(part) => {
                    widen(&mut pct, col, end, part);
                },
                None => {},
            }
        }
        assert((Sizes { min: full_min@, max: full_max@, pct: pct@ }) =~= with_span(
            before,
            all[i as int],
        ));
        k = k + 1;
    }
    assert(places(order@).take(order.len() as int) =~= places(order@));
    let wide_max: Vec<Binary32> = at_least_of(&max, &min);
    let wide_full_max: Vec<Binary32> = at_least_of(&full_max, &full_min);
    ColumnSizes { min, max: wide_max, pct, full_min, full_max: wide_full_max }
}

fn fitted_of(sizes: &ColumnSizes, width: Binary32, insets: Binary32) -> (r: Vec<Binary32>)
    requires
        sizes.min.len() <= sizes.max.len(),
        sizes.min.len() <= sizes.pct.len(),
    ensures
        r@ == fitted(sizes@, width, insets),
{
    distribute::distribute_columns(
        width.minus(insets).max(Binary32::nil()),
        sizes.min.as_slice(),
        sizes.max.as_slice(),
        sizes.pct.as_slice(),
    )
}

/// The widths of the columns of a table that was given the width `width`.
pub fn column_widths(sizes: &ColumnSizes, width: InlineSize, inputs: LayoutInput) -> (r: Vec<
    Binary32,
>)
    requires
        sizes.min.len() <= sizes.max.len(),
        sizes.min.len() <= sizes.pct.len(),
    ensures
        r@ == widths(sizes@, inputs.offer(width, sizes.min.len() as int)),
{
    let n: usize = sizes.min.len();
    let one: Binary32 = Binary32::from_bits(0x3f80_0000);
    let gaps: Binary32 = inputs.gap.times(Binary32::from_count(n).minus(one));
    let insets: Binary32 = inputs.border_left.plus(inputs.border_right).plus(
        inputs.padding_left,
    ).plus(inputs.padding_right).plus(gaps);
    match inputs.known_width {
        Some(known) => fitted_of(sizes, known, insets),
        None => match inputs.available_width {
            AvailableSpace::MinContent => copy(&sizes.full_min),
            AvailableSpace::MaxContent => copy(&sizes.full_max),
            AvailableSpace::Definite(space) => match width {
                InlineSize::Length(own) => fitted_of(sizes, own, insets),
                InlineSize::Percent(part) => fitted_of(sizes, space.times(part), insets),
                _ => {
                    let avail: Binary32 = space.minus(insets).max(Binary32::nil());
                    if distribute::total_of(sizes.full_max.as_slice()).le(avail) {
                        copy(&sizes.full_max)
                    } else {
                        fitted_of(sizes, space, insets)
                    }
                },
            },
        },
    }
}

/// The place at which the cell `i` is inserted into an order of the cells before it,
/// looked for from `at` down.
proof fn insertion_place(spans: Seq<int>, i: int, order: Seq<int>, at: int) -> (place: int)
    requires
        0 <= i < spans.len(),
        is_span_order(spans.take(i), order),
        0 <= at <= order.len(),
        forall|k: int| at <= k < order.len() ==> spans[#[trigger] order[k]] > spans[i],
    ensures
        0 <= place <= order.len(),
        forall|k: int| 0 <= k < place ==> spans[#[trigger] order[k]] <= spans[i],
        forall|k: int| place <= k < order.len() ==> spans[#[trigger] order[k]] > spans[i],
    decreases at,
{
    let seen = spans.take(i);
    if at > 0 && spans[order[at - 1]] > spans[i] {
        insertion_place(spans, i, order, at - 1)
    } else {
        assert forall|k: int| 0 <= k < at implies spans[#[trigger] order[k]] <= spans[i] by {
            if k < at - 1 {
                assert(spans_before(seen, order[k], order[at - 1]));
                assert(0 <= order[k] < seen.len());
                assert(0 <= order[at - 1] < seen.len());
            }
        }
        at
    }
}

/// There is an order of the first `i` cells.
proof fn lemma_span_order_of_first(spans: Seq<int>, i: int) -> (order: Seq<int>)
    requires
        0 <= i <= spans.len(),
    ensures
        is_span_order(spans.take(i), order),
    decreases i,
{
    if i == 0 {
        Seq::empty()
    } else {
        let before = lemma_span_order_of_first(spans, i - 1);
        if spans[i - 1] > 1 {
            let at = insertion_place(spans, i - 1, before, before.len() as int);
            lemma_insert(spans, i - 1, before, at);
            before.insert(at, i - 1)
        } else {
            lemma_skip(spans, i - 1, before);
            before
        }
    }
}

/// A cell that lies in one column alone does not change the order.
proof fn lemma_skip(spans: Seq<int>, i: int, order: Seq<int>)
    requires
        0 <= i < spans.len(),
        spans[i] <= 1,
        is_span_order(spans.take(i), order),
    ensures
        is_span_order(spans.take(i + 1), order),
{
    let seen = spans.take(i);
    let now = spans.take(i + 1);
    assert forall|k: int| 0 <= k < order.len() implies 0 <= #[trigger] order[k] < now.len()
        && now[order[k]] > 1 by {
        assert(seen[order[k]] > 1);
    }
    assert forall|j: int| 0 <= j < now.len() && #[trigger] now[j] > 1 implies order.contains(
        j,
    ) by {
        assert(seen[j] > 1);
    }
    assert forall|j: int, k: int| 0 <= j < k < order.len() implies spans_before(
        now,
        #[trigger] order[j],
        #[trigger] order[k],
    ) by {
        assert(spans_before(seen, order[j], order[k]));
        assert(0 <= order[j] < seen.len());
        assert(0 <= order[k] < seen.len());
    }
}

/// The cells that span several columns have an order in which they widen them, and
/// one only.
pub proof fn lemma_span_order(spans: Seq<int>)
    ensures
        is_span_order(spans, span_order(spans)),
{
    let order = lemma_span_order_of_first(spans, spans.len() as int);
    assert(spans.take(spans.len() as int) =~= spans);
    assert(is_span_order(spans, order));
}

}
