//! What is built of a table, told by its cells and their styles.

use vstd::prelude::*;

use crate::binary32::Binary32;
use crate::context;
use crate::context::{AutoFlow, Frame, Spacing, TableContext};
use crate::document;
use crate::document::{BorderCollapse, InlineSize, NodeStyle, NodeView, TableLayout};
use crate::number::Number;
use crate::order;
use crate::placement;
use crate::placement::{CellBorder, GridLine, TableCell, Track};
use crate::spans;
use crate::walk;
use crate::walk::Item;

verus! {

/// Where borders collapse, the distance between columns is as wide as the left or the
/// right border of the first cell, and no narrower than either, and the distance between
/// rows likewise with the top and the bottom border. Without cells there is no distance.
/// Where borders do not collapse, the distances are those of the table's style.
pub proof fn law_gaps(style: NodeStyle, border: Option<CellBorder>)
    ensures
        ({
            let (x, y) = context::gaps(style, border);
            match style.border_collapse {
                BorderCollapse::Separate => {
                    &&& x == Spacing::Pixels(style.spacing_width)
                    &&& y == Spacing::Pixels(style.spacing_height)
                },
                BorderCollapse::Collapse => match border {
                    Some(border) => {
                        let widths = border.widths;
                        &&& x is AppUnits && y is AppUnits
                        &&& widths.left <= x->AppUnits_0 && widths.right <= x->AppUnits_0
                        &&& x->AppUnits_0 == widths.left || x->AppUnits_0 == widths.right
                        &&& widths.top <= y->AppUnits_0 && widths.bottom <= y->AppUnits_0
                        &&& y->AppUnits_0 == widths.top || y->AppUnits_0 == widths.bottom
                    },
                    None => {
                        &&& x == Spacing::Pixels(Binary32 { bits: 0 })
                        &&& y == Spacing::Pixels(Binary32 { bits: 0 })
                    },
                },
            }
        }),
{
}

/// How many columns the cells of a row span together.
pub open spec fn spanned_in(cells: Seq<TableCell>, row: int) -> int
    decreases cells.len(),
{
    if cells.len() == 0 {
        0
    } else {
        spanned_in(cells.drop_last(), row) + if cells.last().row == row {
            cells.last().colspan as int
        } else {
            0
        }
    }
}

/// How many cells a row has.
pub open spec fn cells_in(cells: Seq<TableCell>, row: int) -> int
    decreases cells.len(),
{
    if cells.len() == 0 {
        0
    } else {
        cells_in(cells.drop_last(), row) + if cells.last().row == row {
            1int
        } else {
            0
        }
    }
}

proof fn lemma_nothing_below(cells: Seq<TableCell>, row: int)
    requires
        forall|k: int| 0 <= k < cells.len() ==> (#[trigger] cells[k]).row < row,
    ensures
        spanned_in(cells, row) == 0,
        cells_in(cells, row) == 0,
    decreases cells.len(),
{
    if cells.len() > 0 {
        assert(cells[cells.len() - 1] == cells.last());
        let rest = cells.drop_last();
        assert forall|k: int| 0 <= k < rest.len() implies (#[trigger] rest[k]).row < row by {
            assert(rest[k] == cells[k]);
        }
        lemma_nothing_below(rest, row);
    }
}

/// What holds of the columns after each row and cell.
proof fn lemma_columns(
    nodes: Seq<NodeView>,
    is_fixed: bool,
    collapse: BorderCollapse,
    items: Seq<Item>,
)
    requires
        placement::fits(placement::nothing(), nodes, is_fixed, collapse, items),
    ensures
        ({
            let p = order::fresh(nodes, is_fixed, collapse, items);
            &&& 0 <= p.col == spanned_in(p.cells, p.row)
            &&& p.columns.len() == cells_in(p.cells, 1)
            &&& forall|k: int|
                0 <= k < p.cells.len() ==> (#[trigger] p.cells[k]).node_id < nodes.len()
            &&& forall|k: int|
                0 <= k < p.cells.len() && (#[trigger] p.cells[k]).row == 1 ==> {
                    let at = cells_in(p.cells.take(k), 1);
                    &&& 0 <= at < p.columns.len()
                    &&& p.columns[at] == placement::track(
                        placement::style_of(nodes, p.cells[k].node_id),
                        is_fixed,
                    )
                }
            &&& match p.first_cell_border {
                Some(border) => {
                    &&& p.cells.len() > 0
                    &&& border.node_id == p.cells[0].node_id
                    &&& border.widths == placement::style_of(nodes, p.cells[0].node_id).border
                },
                None => p.cells.len() == 0,
            }
        }),
    decreases items.len(),
{
    let p = order::fresh(nodes, is_fixed, collapse, items);
    order::lemma_state(nodes, is_fixed, collapse, items);
    if items.len() > 0 {
        let before = order::fresh(nodes, is_fixed, collapse, items.drop_last());
        lemma_columns(nodes, is_fixed, collapse, items.drop_last());
        order::lemma_state(nodes, is_fixed, collapse, items.drop_last());
        match items.last() {
            Item::Row(id) => {
                assert forall|k: int| 0 <= k < p.cells.len() implies (#[trigger] p.cells[k]).row
                    < p.row by {
                    assert(before.cells[k].row <= before.row);
                }
                lemma_nothing_below(p.cells, p.row);
            },
            Item::Cell(id) => {
                let cell = placement::cell(before, nodes, collapse, id);
                assert(p.cells.drop_last() =~= before.cells);
                assert(p.cells.last() == cell);
                assert(cell.row == before.row);
                assert forall|k: int| 0 <= k < p.cells.len() implies (#[trigger] p.cells[k]).node_id
                    < nodes.len() by {
                    if k < before.cells.len() {
                        assert(p.cells[k] == before.cells[k]);
                    }
                }
                assert forall|k: int| 0 <= k < p.cells.len() && (#[trigger] p.cells[k]).row
                    == 1 implies ({
                    let at = cells_in(p.cells.take(k), 1);
                    &&& 0 <= at < p.columns.len()
                    &&& p.columns[at] == placement::track(
                        placement::style_of(nodes, p.cells[k].node_id),
                        is_fixed,
                    )
                }) by {
                    if k < before.cells.len() {
                        assert(p.cells[k] == before.cells[k]);
                        assert(p.cells.take(k) =~= before.cells.take(k));
                    } else {
                        assert(p.cells.take(k) =~= before.cells);
                    }
                }
                if before.cells.len() > 0 {
                    assert(p.cells[0] == before.cells[0]);
                }
            },
        }
    }
}

/// A table's grid has as many columns as the cells of its last row span together. A cell
/// of the first row sizes the column at its place among the cells of that row: by its
/// length and its padding, by its percentage where the layout is fixed, and otherwise not
/// at all. All other columns are automatic.
pub proof fn law_grid_columns(nodes: Seq<NodeView>, root: int)
    requires
        context::table_fits(nodes, root),
    ensures
        ({
            let table = context::table_context(nodes, root);
            let columns = table.style.columns;
            let is_fixed = nodes[root].style->Some_0.table_layout == TableLayout::Fixed;
            &&& columns.len() == spanned_in(table.cells, table.rows.len() as int)
            &&& forall|k: int|
                0 <= k < table.cells.len() && (#[trigger] table.cells[k]).row == 1
                    && cells_in(table.cells.take(k), 1) < columns.len() ==> {
                    let style = nodes[table.cells[k].node_id as int].style->Some_0;
                    let column = columns[cells_in(table.cells.take(k), 1)];
                    match style.width {
                        InlineSize::Length(length) => column == Track::Length(
                            length.sum(style.padding_left).sum(style.padding_right),
                        ),
                        InlineSize::Percent(part) => if is_fixed {
                            column == Track::Percent(part)
                        } else {
                            column == Track::Auto
                        },
                        _ => column == Track::Auto,
                    }
                }
            &&& forall|i: int|
                cells_in(table.cells, 1) <= i < columns.len() ==> #[trigger] columns[i]
                    == Track::Auto
        }),
{
    let style = nodes[root].style.unwrap();
    let rest = context::inside(nodes, root);
    let items = context::table_items(nodes, root);
    lemma_columns(rest, context::fixed(style), style.border_collapse, items);
    order::law_document_order(rest, context::fixed(style), style.border_collapse, items);
}

/// A table is a grid for the layout around it, filled densely row by row, whose further
/// rows and columns are automatic. It has a row for each row that was found, keeps the
/// width that it was given and has nothing to keep from an earlier layout. Where borders
/// collapse, the distances between its cells frame it too.
pub proof fn law_grid_style(nodes: Seq<NodeView>, root: int)
    requires
        context::table_fits(nodes, root),
    ensures
        ({
            let table = context::table_context(nodes, root);
            let grid = table.style;
            let style = nodes[root].style->Some_0;
            &&& grid.item_is_table
            &&& grid.auto_flow == AutoFlow::RowDense
            &&& grid.auto_columns.len() == 0
            &&& grid.auto_rows.len() == 0
            &&& grid.width == style.width
            &&& grid.row_count == table.rows.len()
            &&& table.computed_grid_info is None
            &&& table.border_collapse == style.border_collapse
            &&& match style.border_collapse {
                BorderCollapse::Collapse => grid.frame == Some(
                    Frame { sides: grid.gap_width, ends: grid.gap_height },
                ),
                BorderCollapse::Separate => grid.frame is None,
            }
        }),
{
    let style = nodes[root].style.unwrap();
    order::law_document_order(
        context::inside(nodes, root),
        context::fixed(style),
        style.border_collapse,
        context::table_items(nodes, root),
    );
}

/// The borders of a table are those of its first cell, if there is one. Where borders
/// collapse, they are also how far apart its cells are: in each direction as far as the
/// wider one of the two borders.
pub proof fn law_first_cell_borders(nodes: Seq<NodeView>, root: int)
    requires
        context::table_fits(nodes, root),
    ensures
        ({
            let table = context::table_context(nodes, root);
            let x = table.style.gap_width;
            let y = table.style.gap_height;
            let style = nodes[root].style->Some_0;
            &&& table.cells.len() == 0 ==> table.border_style is None
            &&& table.cells.len() > 0 ==> {
                let first = table.cells[0].node_id;
                let widths = nodes[first as int].style->Some_0.border;
                &&& table.border_style == Some(CellBorder { node_id: first, widths })
                &&& style.border_collapse == BorderCollapse::Collapse ==> {
                    &&& x is AppUnits && y is AppUnits
                    &&& widths.left <= x->AppUnits_0 && widths.right <= x->AppUnits_0
                    &&& x->AppUnits_0 == widths.left || x->AppUnits_0 == widths.right
                    &&& widths.top <= y->AppUnits_0 && widths.bottom <= y->AppUnits_0
                    &&& y->AppUnits_0 == widths.top || y->AppUnits_0 == widths.bottom
                }
            }
            &&& table.cells.len() == 0 && style.border_collapse == BorderCollapse::Collapse ==> x
                == Spacing::Pixels(Binary32 { bits: 0 }) && y == Spacing::Pixels(
                Binary32 { bits: 0 },
            )
            &&& style.border_collapse == BorderCollapse::Separate ==> x == Spacing::Pixels(
                style.spacing_width,
            ) && y == Spacing::Pixels(style.spacing_height)
        }),
{
    let style = nodes[root].style.unwrap();
    let rest = context::inside(nodes, root);
    let items = context::table_items(nodes, root);
    lemma_columns(rest, context::fixed(style), style.border_collapse, items);
    law_gaps(style, context::table_placement(nodes, root).first_cell_border);
}

/// A table has the rows and the cells that its children stand for, one child after the
/// other, as they are placed in an empty table of its layout.
pub proof fn law_table_of_children(nodes: Seq<NodeView>, root: int)
    requires
        context::table_fits(nodes, root),
    ensures
        ({
            let style = nodes[root].style->Some_0;
            let table = context::table_context(nodes, root);
            let inner = document::childless(nodes, root);
            let p = order::fresh(
                inner,
                style.table_layout == TableLayout::Fixed,
                style.border_collapse,
                walk::items_of(inner, nodes[root].children),
            );
            table.cells == p.cells && table.rows == p.rows
        }),
{
}

/// A row's line in the grid is its number, where lines are counted in 16 bits.
pub proof fn law_line(row: int)
    requires
        0 <= row <= u16::MAX,
    ensures
        (placement::line(row) - row) % 65536 == 0,
{
}

/// Whether a cell covers the place in the row `r` and the column `c`. Cells outside of
/// all rows make up a row of their own.
pub open spec fn covers(cell: TableCell, r: int, c: int) -> bool {
    &&& cell.row <= r
    &&& if cell.row == 0 {
        r == 0
    } else {
        r < cell.row + cell.rowspan
    }
    &&& cell.col_start <= c < cell.col_start + cell.colspan
}

/// No place in a table is covered by two cells, whatever rows and columns they span.
pub proof fn law_never_two(
    nodes: Seq<NodeView>,
    is_fixed: bool,
    collapse: BorderCollapse,
    items: Seq<Item>,
    i: int,
    j: int,
    r: int,
    c: int,
)
    requires
        placement::fits(placement::nothing(), nodes, is_fixed, collapse, items),
        0 <= i < j < order::fresh(nodes, is_fixed, collapse, items).cells.len(),
    ensures
        ({
            let cells = order::fresh(nodes, is_fixed, collapse, items).cells;
            !(covers(cells[i], r, c) && covers(cells[j], r, c))
        }),
{
    let cells = order::fresh(nodes, is_fixed, collapse, items).cells;
    order::law_cells_apart(nodes, is_fixed, collapse, items, i, j, r, c);
    assert(covers(cells[i], r, c) ==> placement::holds(cells[i], r, c));
    assert(covers(cells[j], r, c) ==> placement::holds(cells[j], r, c));
}

/// A cell could not have started further left: there, one of the cells before it covers
/// one of the columns that it would span, in its row.
pub proof fn law_leftmost(
    nodes: Seq<NodeView>,
    is_fixed: bool,
    collapse: BorderCollapse,
    items: Seq<Item>,
    j: int,
    b: int,
)
    requires
        placement::fits(placement::nothing(), nodes, is_fixed, collapse, items),
        0 <= j < order::fresh(nodes, is_fixed, collapse, items).cells.len(),
        0 <= b < order::fresh(nodes, is_fixed, collapse, items).cells[j].col_start,
    ensures
        ({
            let cells = order::fresh(nodes, is_fixed, collapse, items).cells;
            exists|i: int, x: int|
                0 <= i < j && b <= x < b + cells[j].colspan && #[trigger] covers(
                    cells[i],
                    cells[j].row as int,
                    x,
                )
        }),
    decreases items.len(),
{
    let p = order::fresh(nodes, is_fixed, collapse, items);
    let before = order::fresh(nodes, is_fixed, collapse, items.drop_last());
    let cells = p.cells;
    order::lemma_state(nodes, is_fixed, collapse, items.drop_last());
    if j < before.cells.len() {
        law_leftmost(nodes, is_fixed, collapse, items.drop_last(), j, b);
        let (i, x) = choose|i: int, x: int|
            0 <= i < j && b <= x < b + before.cells[j].colspan && #[trigger] covers(
                before.cells[i],
                before.cells[j].row as int,
                x,
            );
        assert(cells[i] == before.cells[i] && cells[j] == before.cells[j]);
        assert(covers(cells[i], cells[j].row as int, x));
    } else {
        let cell = cells[j];
        placement::lemma_first_free_exists(
            before.cells,
            before.row,
            cell.rowspan as int,
            cell.colspan as int,
        );
        placement::lemma_free_in_row(
            before.cells,
            before.row,
            cell.rowspan as int,
            b,
            cell.colspan as int,
        );
        assert(!placement::free(
            before.cells,
            before.row,
            cell.rowspan as int,
            b,
            cell.colspan as int,
        ));
        let x = choose|x: int|
            b <= x < b + cell.colspan && #[trigger] placement::occupied(
                before.cells,
                before.row,
                x,
            );
        let i = choose|i: int|
            0 <= i < before.cells.len() && placement::holds(
                #[trigger] before.cells[i],
                before.row,
                x,
            );
        assert(cells[i] == before.cells[i]);
        assert(covers(cells[i], cell.row as int, x));
    }
}

/// How many columns all cells among items span together.
pub open spec fn spanned_by(nodes: Seq<NodeView>, items: Seq<Item>) -> int
    decreases items.len(),
{
    if items.len() == 0 {
        0
    } else {
        spanned_by(nodes, items.drop_last()) + match items.last() {
            Item::Row(id) => 0,
            Item::Cell(id) => spans::colspan(nodes[id as int].colspan) as int,
        }
    }
}

proof fn lemma_spanned_by(nodes: Seq<NodeView>, items: Seq<Item>)
    ensures
        0 <= spanned_by(nodes, items),
    decreases items.len(),
{
    if items.len() > 0 {
        lemma_spanned_by(nodes, items.drop_last());
    }
}

/// All cells lie left of the column that all of them span up to together.
proof fn lemma_right_edges(
    nodes: Seq<NodeView>,
    is_fixed: bool,
    collapse: BorderCollapse,
    items: Seq<Item>,
)
    requires
        placement::fits(placement::nothing(), nodes, is_fixed, collapse, items),
        spanned_by(nodes, items) <= u16::MAX,
    ensures
        ({
            let p = order::fresh(nodes, is_fixed, collapse, items);
            &&& 0 <= p.col <= spanned_by(nodes, items)
            &&& forall|k: int|
                0 <= k < p.cells.len() ==> (#[trigger] p.cells[k]).col_start + p.cells[k].colspan
                    <= spanned_by(nodes, items)
        }),
    decreases items.len(),
{
    if items.len() > 0 {
        let p = order::fresh(nodes, is_fixed, collapse, items);
        let before = order::fresh(nodes, is_fixed, collapse, items.drop_last());
        lemma_spanned_by(nodes, items.drop_last());
        lemma_right_edges(nodes, is_fixed, collapse, items.drop_last());
        match items.last() {
            Item::Row(id) => {},
            Item::Cell(id) => {
                lemma_edge(before, nodes, id, spanned_by(nodes, items.drop_last()));
                assert forall|k: int| 0 <= k < p.cells.len() implies (
                #[trigger] p.cells[k]).col_start + p.cells[k].colspan <= spanned_by(
                    nodes,
                    items,
                ) by {
                    if k < before.cells.len() {
                        assert(p.cells[k] == before.cells[k]);
                    }
                }
            },
        }
    }
}

/// A cell starts no further right than all cells before it end.
proof fn lemma_edge(p: placement::PlacementView, nodes: Seq<NodeView>, id: usize, right: int)
    requires
        0 <= right,
        forall|k: int|
            0 <= k < p.cells.len() ==> (#[trigger] p.cells[k]).col_start + p.cells[k].colspan
                <= right,
    ensures
        0 <= placement::left_edge(p, nodes, id) <= right,
{
    let rowspan = spans::rowspan(nodes[id as int].rowspan) as int;
    let colspan = spans::colspan(nodes[id as int].colspan) as int;
    placement::lemma_first_free_exists(p.cells, p.row, rowspan, colspan);
    assert forall|r: int, x: int| right <= x implies !#[trigger] placement::occupied(
        p.cells,
        r,
        x,
    ) by {}
    assert(placement::free(p.cells, p.row, rowspan, right, colspan));
}

/// Rows and cells can be placed as long as their numbers fit 16 bits: the number of rows,
/// and the number of columns that all cells span together. Only a cell of the first row
/// that has a calculated width cannot.
pub proof fn law_fits(
    nodes: Seq<NodeView>,
    is_fixed: bool,
    collapse: BorderCollapse,
    items: Seq<Item>,
)
    requires
        order::row_ids(items).len() <= u16::MAX,
        spanned_by(nodes, items) <= u16::MAX,
        forall|k: int|
            0 <= k < items.len() && (#[trigger] items[k]) is Cell ==> {
                let id = items[k]->Cell_0;
                &&& id < nodes.len()
                &&& nodes[id as int].style is Some
                &&& order::row_ids(items.take(k)).len() == 1 ==> !(
                nodes[id as int].style->Some_0.width is Calculated)
            },
    ensures
        placement::fits(placement::nothing(), nodes, is_fixed, collapse, items),
    decreases items.len(),
{
    if items.len() > 0 {
        let rest = items.drop_last();
        let before = order::fresh(nodes, is_fixed, collapse, rest);
        lemma_spanned_by(nodes, rest);
        assert forall|k: int| 0 <= k < rest.len() && (#[trigger] rest[k]) is Cell implies ({
            let id = rest[k]->Cell_0;
            &&& id < nodes.len()
            &&& nodes[id as int].style is Some
            &&& order::row_ids(rest.take(k)).len() == 1 ==> !(
            nodes[id as int].style->Some_0.width is Calculated)
        }) by {
            assert(items[k] == rest[k]);
            assert(items.take(k) =~= rest.take(k));
        }
        law_fits(nodes, is_fixed, collapse, rest);
        lemma_right_edges(nodes, is_fixed, collapse, rest);
        order::law_document_order(nodes, is_fixed, collapse, rest);
        match items.last() {
            Item::Row(id) => {},
            Item::Cell(id) => {
                let last = items.len() - 1;
                assert(items[last] is Cell);
                assert(items.take(last) =~= rest);
                lemma_edge(before, nodes, id, spanned_by(nodes, rest));
            },
        }
    }
}

/// What can be placed is counted in 16 bits: the rows, the columns that the cells of a
/// row span together, and the columns up to where each cell ends. No cell of the first
/// row has a calculated width.
pub proof fn law_fitting(
    nodes: Seq<NodeView>,
    is_fixed: bool,
    collapse: BorderCollapse,
    items: Seq<Item>,
    k: int,
)
    requires
        placement::fits(placement::nothing(), nodes, is_fixed, collapse, items),
        0 <= k < items.len(),
        items[k] is Cell,
    ensures
        ({
            let p = order::fresh(nodes, is_fixed, collapse, items);
            let cell = p.cells[order::cell_place(items, k)];
            &&& order::row_ids(items).len() <= u16::MAX
            &&& cell.col_start + cell.colspan <= u16::MAX
            &&& cell.node_id < nodes.len()
            &&& nodes[cell.node_id as int].style is Some
            &&& cell.row == 1 ==> !(nodes[cell.node_id as int].style->Some_0.width is Calculated)
        }),
{
    order::lemma_state(nodes, is_fixed, collapse, items);
    order::law_document_order(nodes, is_fixed, collapse, items);
    order::law_cell_row(nodes, is_fixed, collapse, items, k);
    order::law_left_edge(nodes, is_fixed, collapse, items, k);
    placement::lemma_fits_prefix(placement::nothing(), nodes, is_fixed, collapse, items, k + 1);
    assert(items.take(k + 1).drop_last() =~= items.take(k));
    assert(items.take(k + 1).last() == items[k]);
    let before = order::fresh(nodes, is_fixed, collapse, items.take(k));
    let cell = order::fresh(nodes, is_fixed, collapse, items).cells[order::cell_place(items, k)];
    order::law_document_order(nodes, is_fixed, collapse, items.take(k));
    placement::lemma_first_free(
        before.cells,
        cell.row as int,
        cell.rowspan as int,
        cell.colspan as int,
        cell.col_start as int,
    );
}

/// A table can be built where it has a style and all that its children stand for can be
/// placed.
pub proof fn law_table_fits(nodes: Seq<NodeView>, root: int)
    requires
        0 <= root < nodes.len(),
    ensures
        ({
            let style = nodes[root].style->Some_0;
            let inner = document::childless(nodes, root);
            context::table_fits(nodes, root) <==> nodes[root].style is Some && placement::fits(
                placement::nothing(),
                inner,
                style.table_layout == TableLayout::Fixed,
                style.border_collapse,
                walk::items_of(inner, nodes[root].children),
            )
        }),
{
}

/// Building a table repairs what reading its children repairs.
pub proof fn law_table_repairs(nodes: Seq<NodeView>, root: int)
    requires
        0 <= root < nodes.len(),
    ensures
        context::table_repairs(nodes, root) == walk::repairs_of(
            document::childless(nodes, root),
            nodes[root].children,
        ),
{
}

/// A table begins without rows, cells and columns.
pub proof fn law_nothing()
    ensures
        ({
            let p = placement::nothing();
            &&& p.row == 0 && p.col == 0
            &&& p.cells.len() == 0 && p.rows.len() == 0 && p.columns.len() == 0
            &&& p.first_cell_border is None
        }),
{
}

/// Each cell of a table has the width that its node was given, spans what its node says,
/// and is laid out on the line of its row, in columns that the grid finds and whose width
/// it gets. It goes without its own borders where borders collapse.
pub proof fn law_every_cell(
    nodes: Seq<NodeView>,
    is_fixed: bool,
    collapse: BorderCollapse,
    items: Seq<Item>,
    k: int,
)
    requires
        placement::fits(placement::nothing(), nodes, is_fixed, collapse, items),
        0 <= k < order::fresh(nodes, is_fixed, collapse, items).cells.len(),
    ensures
        ({
            let cell = order::fresh(nodes, is_fixed, collapse, items).cells[k];
            let node = nodes[cell.node_id as int];
            &&& Some(cell.specified_width) == match node.style {
                Some(style) => Some(style.width),
                None => None,
            }
            &&& cell.colspan == spans::colspan(node.colspan)
            &&& cell.rowspan == spans::rowspan(node.rowspan)
            &&& cell.style.column.start == GridLine::Auto
            &&& cell.style.column.span == cell.colspan
            &&& cell.style.row.start == GridLine::Line(placement::line(cell.row as int))
            &&& cell.style.row.span == cell.rowspan
            &&& cell.style.width == Track::Auto
            &&& cell.style.borderless == (collapse == BorderCollapse::Collapse)
        }),
    decreases items.len(),
{
    let before = order::fresh(nodes, is_fixed, collapse, items.drop_last());
    let p = order::fresh(nodes, is_fixed, collapse, items);
    order::lemma_state(nodes, is_fixed, collapse, items.drop_last());
    if k < before.cells.len() {
        law_every_cell(nodes, is_fixed, collapse, items.drop_last(), k);
        assert(p.cells[k] == before.cells[k]);
    }
}

/// One more row can be placed as long as rows are counted in 16 bits. One more cell can
/// be placed where it is a node with a style, where the cells of its row still span
/// columns that are counted in 16 bits and where it has room in its row that ends within
/// as many columns. In the first row its width must not be a calculated one.
pub proof fn law_one_more(
    nodes: Seq<NodeView>,
    is_fixed: bool,
    collapse: BorderCollapse,
    items: Seq<Item>,
    item: Item,
)
    requires
        placement::fits(placement::nothing(), nodes, is_fixed, collapse, items),
    ensures
        ({
            let p = order::fresh(nodes, is_fixed, collapse, items);
            let row = order::row_ids(items).len() as int;
            placement::fits(placement::nothing(), nodes, is_fixed, collapse, items.push(item))
                <==> match item {
                Item::Row(id) => row < u16::MAX,
                Item::Cell(id) => {
                    let span = spans::colspan(nodes[id as int].colspan);
                    &&& id < nodes.len()
                    &&& nodes[id as int].style is Some
                    &&& spanned_in(p.cells, row) + span <= u16::MAX
                    &&& exists|c: int|
                        0 <= c && #[trigger] ends(c, span as int) <= u16::MAX
                            && forall|k: int, x: int|
                            0 <= k < p.cells.len() && c <= x < ends(c, span as int)
                                ==> !#[trigger] covers(p.cells[k], row, x)
                    &&& row == 1 ==> !(nodes[id as int].style->Some_0.width is Calculated)
                },
            }
        }),
{
    let p = order::fresh(nodes, is_fixed, collapse, items);
    let row = order::row_ids(items).len() as int;
    order::law_document_order(nodes, is_fixed, collapse, items);
    order::lemma_state(nodes, is_fixed, collapse, items);
    lemma_columns(nodes, is_fixed, collapse, items);
    assert(items.push(item).drop_last() =~= items);
    match item {
        Item::Row(id) => {},
        Item::Cell(id) => {
            let span = spans::colspan(nodes[id as int].colspan) as int;
            let down = spans::rowspan(nodes[id as int].rowspan) as int;
            let edge = placement::left_edge(p, nodes, id);
            placement::lemma_first_free_exists(p.cells, row, down, span);
            placement::lemma_free_in_row(p.cells, row, down, edge, span);
            assert forall|k: int, x: int| 0 <= k < p.cells.len() && edge <= x < ends(
                edge,
                span,
            ) implies !#[trigger] covers(p.cells[k], row, x) by {
                assert(!placement::occupied(p.cells, row, x));
                assert(!placement::holds(p.cells[k], row, x));
            }
            if exists|c: int|
                0 <= c && #[trigger] ends(c, span) <= u16::MAX && forall|k: int, x: int|
                    0 <= k < p.cells.len() && c <= x < ends(c, span) ==> !#[trigger] covers(
                        p.cells[k],
                        row,
                        x,
                    ) {
                let c = choose|c: int|
                    0 <= c && #[trigger] ends(c, span) <= u16::MAX && forall|k: int, x: int|
                        0 <= k < p.cells.len() && c <= x < ends(c, span) ==> !#[trigger] covers(
                            p.cells[k],
                            row,
                            x,
                        );
                assert forall|x: int| c <= x < c + span implies !#[trigger] placement::occupied(
                    p.cells,
                    row,
                    x,
                ) by {
                    if placement::occupied(p.cells, row, x) {
                        let k = choose|k: int|
                            0 <= k < p.cells.len() && placement::holds(
                                #[trigger] p.cells[k],
                                row,
                                x,
                            );
                        assert(covers(p.cells[k], row, x));
                    }
                }
                placement::lemma_free_in_row(p.cells, row, down, c, span);
                assert(placement::free(p.cells, row, down, c, span));
                assert(edge <= c);
            }
            assert(ends(edge, span) == edge + span);
        },
    }
}

/// The column behind those that a cell takes up.
pub open spec fn ends(start: int, span: int) -> int {
    start + span
}

/// A table's nodes are those of its cells, in their order.
pub proof fn law_cell_nodes(cells: Seq<TableCell>, k: int)
    ensures
        context::cell_nodes(cells).len() == cells.len(),
        0 <= k < cells.len() ==> context::cell_nodes(cells)[k] == cells[k].node_id,
{
}

/// What is said of a table and its grid is said of all that there is to them.
pub proof fn law_table_view(table: TableContext)
    ensures
        table@.style.item_is_table == table.style.item_is_table,
        table@.style.auto_flow == table.style.auto_flow,
        table@.style.auto_columns == table.style.auto_columns@,
        table@.style.auto_rows == table.style.auto_rows@,
        table@.style.width == table.style.width,
        table@.style.columns == table.style.columns@,
        table@.style.row_count == table.style.row_count,
        table@.style.gap_width == table.style.gap_width,
        table@.style.gap_height == table.style.gap_height,
        table@.style.frame == table.style.frame,
        table@.cells == table.cells@,
        table@.rows == table.rows@,
        table@.computed_grid_info == table.computed_grid_info,
        table@.border_style == table.border_style,
        table@.border_collapse == table.border_collapse,
{
}

}
