//! What the widths of a table's columns come from: the width that it has, is given or is
//! offered.

use vstd::prelude::*;

use crate::binary32::Binary32;
use crate::columns;
use crate::columns::{AvailableSpace, LayoutInput};
use crate::context::{TableContext, TableStyleView};
use crate::distribute;
use crate::document::InlineSize;
use crate::number;
use crate::number::Number;
use crate::placement::{TableCell, Track};
use crate::tree;
use crate::tree::{RequestedAxis, RunMode, SizingMode, TableTreeWrapper};

verus! {

/// Borders and padding on both sides, and the gaps between columns, are all that columns
/// do not take up.
pub proof fn law_insets(
    border_left: real,
    border_right: real,
    padding_left: real,
    padding_right: real,
    gap: real,
    n: int,
)
    ensures
        columns::insets(border_left, border_right, padding_left, padding_right, gap, n) - (
        border_left + border_right) - (padding_left + padding_right) + gap == (n as real) * gap,
{
    assert(gap * (n as real - 1real) == (n as real) * gap - gap) by (nonlinear_arith);
}

/// What borders, padding and gaps leave of a width for `n` columns, in binary32 numbers.
pub open spec fn left_of(width: Binary32, inputs: LayoutInput, n: int) -> Binary32 {
    let sides = inputs.border_left.sum(inputs.border_right).sum(inputs.padding_left).sum(
        inputs.padding_right,
    );
    let gaps = inputs.gap.product(Binary32::count(n).difference(Binary32::one()));
    let left = width.difference(sides.sum(gaps));
    if left.nan() || left.less(Binary32::zero()) {
        Binary32::zero()
    } else {
        left
    }
}

/// A table whose width is settled distributes what is left of it for columns, by the
/// cells that lie in one column alone. The width that it was given and the space that it
/// is offered do not matter.
pub proof fn law_settled_width(
    sizes: columns::ColumnSizesView<Binary32>,
    own: InlineSize,
    inputs: LayoutInput,
    n: int,
    width: Binary32,
)
    requires
        inputs.known_width == Some(width),
    ensures
        columns::widths(sizes, inputs.offer(own, n)) == distribute::distributed(
            left_of(width, inputs, n),
            sizes.min,
            sizes.max,
            sizes.pct,
        ),
{
}

/// A table that is measured gives its columns what all cells need, with wrapping or
/// without, whatever width it was given.
pub proof fn law_measured(
    sizes: columns::ColumnSizesView<Binary32>,
    own: InlineSize,
    inputs: LayoutInput,
    n: int,
)
    requires
        inputs.known_width is None,
    ensures
        inputs.available_width == AvailableSpace::MinContent ==> columns::widths(
            sizes,
            inputs.offer(own, n),
        ) == sizes.full_min,
        inputs.available_width == AvailableSpace::MaxContent ==> columns::widths(
            sizes,
            inputs.offer(own, n),
        ) == sizes.full_max,
{
}

/// In a definite space, a table with a length or a percentage gets the same columns as
/// one that is settled to that length, or to that part of the space. Any other table is
/// as wide as all cells need without wrapping where that fits, and else gets the same
/// columns as one that is settled to the space.
pub proof fn law_definite_space(
    sizes: columns::ColumnSizesView<Binary32>,
    own: InlineSize,
    inputs: LayoutInput,
    n: int,
    space: Binary32,
)
    requires
        inputs.known_width is None,
        inputs.available_width == AvailableSpace::Definite(space),
    ensures
        ({
            let got = columns::widths(sizes, inputs.offer(own, n));
            let settled = |width: Binary32|
                columns::widths(
                    sizes,
                    (LayoutInput { known_width: Some(width), ..inputs }).offer(own, n),
                );
            match own {
                InlineSize::Length(width) => got == settled(width),
                InlineSize::Percent(part) => got == settled(space.product(part)),
                _ => if number::total(sizes.full_max).at_most(left_of(space, inputs, n)) {
                    got == sizes.full_max
                } else {
                    got == settled(space)
                },
            }
        }),
{
}

/// The columns of a table are sized by all of its cells and what they measure, as many as
/// its grid has, and get their widths by the width that the table was given.
pub proof fn law_table_widths(
    ctx: TableContext,
    cell_min: Seq<Binary32>,
    cell_max: Seq<Binary32>,
    inputs: LayoutInput,
    n: int,
    own: InlineSize,
)
    requires
        n == ctx.style.columns@.len(),
        own == ctx.style.width,
    ensures
        ({
            let sizes = columns::column_sizes(
                columns::facts(ctx.cells@, cell_min, cell_max),
                n,
            );
            tree::table_widths(ctx, cell_min, cell_max, inputs) == columns::widths(
                sizes,
                inputs.offer(own, n),
            )
        }),
{
}

/// Sizing gives each column its width in pixels, and changes nothing else in a grid.
pub proof fn law_sized_grid(style: TableStyleView, widths: Seq<Binary32>)
    ensures
        ({
            let sized = tree::with_widths(style, widths);
            &&& sized.columns.len() == widths.len()
            &&& forall|i: int|
                0 <= i < widths.len() ==> #[trigger] sized.columns[i] == Track::Length(widths[i])
            &&& (TableStyleView { columns: style.columns, ..sized }) == style
        }),
{
}

/// A table is laid out with the grid that was set for the current layout, and with its
/// own as long as none is set.
pub proof fn law_grid(table: TableTreeWrapper)
    ensures
        match table.style_override {
            Some(style) => table.grid() == style@ && table.override_view() == Some(style@),
            None => table.grid() == table.ctx.style@ && table.override_view() is None,
        },
{
}

/// A cell's node is measured by its own width alone: only its size is asked for, and
/// nothing around it is known, so that percentages do not count. The space is the one
/// that is asked for in width, and unlimited in height.
pub proof fn law_measurement(cell: TableCell, width: AvailableSpace)
    ensures
        ({
            let asked = tree::measurement(cell, width);
            &&& asked.node_id == cell.node_id
            &&& asked.run_mode == RunMode::ComputeSize
            &&& asked.sizing_mode == SizingMode::InherentSize
            &&& asked.axis == RequestedAxis::Horizontal
            &&& asked.known_width is None && asked.known_height is None
            &&& asked.parent_width is None && asked.parent_height is None
            &&& asked.available_width == width
            &&& asked.available_height == AvailableSpace::MaxContent
            &&& !asked.collapsible_top && !asked.collapsible_bottom
        }),
{
}

}
