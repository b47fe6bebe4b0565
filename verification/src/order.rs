//! What holds of the rows and cells of a table and of the places that they get.

use vstd::prelude::*;

use crate::binary32::Binary32;
use crate::context;
use crate::document;
use crate::document::{BorderCollapse, Damage, NodeView};
use crate::number::Number;
use crate::placement;
use crate::placement::{GridLine, GridPlace, PlacementView, TableCell, TableRow, Track};
use crate::spans;
use crate::walk;
use crate::walk::{Item, Role};

verus! {

/// The nodes of the rows among items, in their order.
pub open spec fn row_ids(items: Seq<Item>) -> Seq<usize>
    decreases items.len(),
{
    if items.len() == 0 {
        Seq::empty()
    } else {
        match items.last() {
            Item::Row(id) => row_ids(items.drop_last()).push(id),
            Item::Cell(id) => row_ids(items.drop_last()),
        }
    }
}

/// The nodes of the cells among items, in their order.
pub open spec fn cell_ids(items: Seq<Item>) -> Seq<usize>
    decreases items.len(),
{
    if items.len() == 0 {
        Seq::empty()
    } else {
        match items.last() {
            Item::Row(id) => cell_ids(items.drop_last()),
            Item::Cell(id) => cell_ids(items.drop_last()).push(id),
        }
    }
}

/// The placement of rows and cells in an empty table.
pub open spec fn fresh(
    nodes: Seq<NodeView>,
    is_fixed: bool,
    collapse: BorderCollapse,
    items: Seq<Item>,
) -> PlacementView {
    placement::placed(placement::nothing(), nodes, is_fixed, collapse, items)
}

/// A table has the rows and the cells that were found, in document order, and counts
/// its rows.
pub proof fn law_document_order(
    nodes: Seq<NodeView>,
    is_fixed: bool,
    collapse: BorderCollapse,
    items: Seq<Item>,
)
    ensures
        ({
            let p = fresh(nodes, is_fixed, collapse, items);
            &&& p.row == p.rows.len()
            &&& p.rows == Seq::new(
                row_ids(items).len(),
                |k: int| TableRow { node_id: row_ids(items)[k], height: Binary32::zero() },
            )
            &&& context::cell_nodes(p.cells) == cell_ids(items)
        }),
    decreases items.len(),
{
    if items.len() > 0 {
        law_document_order(nodes, is_fixed, collapse, items.drop_last());
        let before = fresh(nodes, is_fixed, collapse, items.drop_last());
        let p = fresh(nodes, is_fixed, collapse, items);
        match items.last() {
            Item::Row(id) => {
                assert(p.rows =~= Seq::new(
                    row_ids(items).len(),
                    |k: int| TableRow { node_id: row_ids(items)[k], height: Binary32::zero() },
                ));
            },
            Item::Cell(id) => {
                assert(context::cell_nodes(p.cells) =~= context::cell_nodes(before.cells).push(id));
            },
        }
    } else {
        let p = fresh(nodes, is_fixed, collapse, items);
        assert(p.rows =~= Seq::new(
            row_ids(items).len(),
            |k: int| TableRow { node_id: row_ids(items)[k], height: Binary32::zero() },
        ));
        assert(context::cell_nodes(p.cells) =~= cell_ids(items));
    }
}

/// What was placed stays as it is when more is placed.
proof fn lemma_cells_stay(
    nodes: Seq<NodeView>,
    is_fixed: bool,
    collapse: BorderCollapse,
    items: Seq<Item>,
    k: int,
)
    requires
        0 <= k <= items.len(),
    ensures
        fresh(nodes, is_fixed, collapse, items.take(k)).cells.is_prefix_of(
            fresh(nodes, is_fixed, collapse, items).cells,
        ),
    decreases items.len(),
{
    if k == items.len() {
        assert(items.take(k) =~= items);
    } else {
        lemma_cells_stay(nodes, is_fixed, collapse, items.drop_last(), k);
        assert(items.drop_last().take(k) =~= items.take(k));
    }
}

/// The place of an item that is a cell among all cells.
pub open spec fn cell_place(items: Seq<Item>, k: int) -> int {
    cell_ids(items.take(k)).len() as int
}

/// The cell that an item became is the one that it became when it was placed.
proof fn lemma_cell_at(
    nodes: Seq<NodeView>,
    is_fixed: bool,
    collapse: BorderCollapse,
    items: Seq<Item>,
    k: int,
)
    requires
        0 <= k < items.len(),
        items[k] is Cell,
    ensures
        ({
            let p = fresh(nodes, is_fixed, collapse, items);
            let before = fresh(nodes, is_fixed, collapse, items.take(k));
            let place = cell_place(items, k);
            &&& 0 <= place < p.cells.len()
            &&& p.cells[place] == placement::cell(before, nodes, collapse, items[k]->Cell_0)
            &&& fresh(nodes, is_fixed, collapse, items.take(k + 1)) == placement::step(
                before,
                nodes,
                is_fixed,
                collapse,
                items[k],
            )
        }),
{
    law_document_order(nodes, is_fixed, collapse, items.take(k));
    lemma_cells_stay(nodes, is_fixed, collapse, items, k + 1);
    assert(items.take(k + 1).drop_last() =~= items.take(k));
    assert(items.take(k + 1).last() == items[k]);
    let before = fresh(nodes, is_fixed, collapse, items.take(k));
    assert(context::cell_nodes(before.cells).len() == before.cells.len());
    let after = fresh(nodes, is_fixed, collapse, items.take(k + 1));
    let p = fresh(nodes, is_fixed, collapse, items);
    assert(after.cells[cell_place(items, k)] == p.cells[cell_place(items, k)]);
}

/// A cell stands on the line of its row, which is the number of rows up to it, and
/// spans what its attributes say, which is one column and one row at least. The grid
/// finds its columns, and gives it their width.
pub proof fn law_cell_row(
    nodes: Seq<NodeView>,
    is_fixed: bool,
    collapse: BorderCollapse,
    items: Seq<Item>,
    k: int,
)
    requires
        0 <= k < items.len(),
        items[k] is Cell,
    ensures
        ({
            let cell = fresh(nodes, is_fixed, collapse, items).cells[cell_place(items, k)];
            let id = items[k]->Cell_0;
            &&& cell.node_id == id
            &&& cell.specified_width == placement::style_of(nodes, id).width
            &&& cell.style.row == (GridPlace {
                start: GridLine::Line(placement::line(row_ids(items.take(k)).len() as int)),
                span: cell.rowspan,
            })
            &&& cell.style.column == (GridPlace { start: GridLine::Auto, span: cell.colspan })
            &&& cell.style.width == Track::Auto
            &&& cell.colspan == spans::colspan(nodes[id as int].colspan)
            &&& cell.rowspan == spans::rowspan(nodes[id as int].rowspan)
            &&& 1 <= cell.colspan
            &&& 1 <= cell.rowspan <= 65534
        }),
{
    lemma_cell_at(nodes, is_fixed, collapse, items, k);
    law_document_order(nodes, is_fixed, collapse, items.take(k));
}

/// The grid finds the columns of all cells of a table, and gives them their width,
/// whatever was authored. Cells go without borders where borders collapse.
pub proof fn law_cell_styles(
    nodes: Seq<NodeView>,
    is_fixed: bool,
    collapse: BorderCollapse,
    items: Seq<Item>,
    k: int,
)
    requires
        0 <= k < fresh(nodes, is_fixed, collapse, items).cells.len(),
    ensures
        ({
            let cell = fresh(nodes, is_fixed, collapse, items).cells[k];
            &&& cell.style.column == (GridPlace { start: GridLine::Auto, span: cell.colspan })
            &&& cell.style.row.span == cell.rowspan
            &&& cell.style.width == Track::Auto
            &&& cell.style.borderless == (collapse == BorderCollapse::Collapse)
        }),
    decreases items.len(),
{
    if items.len() > 0 {
        let before = fresh(nodes, is_fixed, collapse, items.drop_last());
        if k < before.cells.len() {
            law_cell_styles(nodes, is_fixed, collapse, items.drop_last(), k);
        }
    }
}

/// Whether one of the cells spans into the row `row` from an earlier row.
pub open spec fn spans_into(cells: Seq<TableCell>, row: int) -> bool {
    exists|k: int|
        0 <= k < cells.len() && (#[trigger] cells[k]).row < row < placement::bottom(
            cells[k].row as int,
            cells[k].rowspan as int,
        )
}

/// What holds after each row and cell: no cell stands below the current row, and as
/// long as no cell spans into it, its cells take up its first columns.
pub proof fn lemma_state(
    nodes: Seq<NodeView>,
    is_fixed: bool,
    collapse: BorderCollapse,
    items: Seq<Item>,
)
    requires
        placement::fits(placement::nothing(), nodes, is_fixed, collapse, items),
    ensures
        ({
            let p = fresh(nodes, is_fixed, collapse, items);
            &&& 0 <= p.row <= u16::MAX
            &&& 0 <= p.col <= u16::MAX
            &&& forall|k: int| 0 <= k < p.cells.len() ==> (#[trigger] p.cells[k]).row <= p.row
            &&& !spans_into(p.cells, p.row) ==> forall|x: int|
                0 <= x ==> (#[trigger] placement::occupied(p.cells, p.row, x) <==> x < p.col)
        }),
    decreases items.len(),
{
    let p = fresh(nodes, is_fixed, collapse, items);
    if items.len() > 0 {
        let before = fresh(nodes, is_fixed, collapse, items.drop_last());
        lemma_state(nodes, is_fixed, collapse, items.drop_last());
        match items.last() {
            Item::Row(id) => {
                if !spans_into(p.cells, p.row) {
                    assert forall|x: int| 0 <= x implies !#[trigger] placement::occupied(
                        p.cells,
                        p.row,
                        x,
                    ) by {
                        if placement::occupied(p.cells, p.row, x) {
                            let k = choose|k: int|
                                0 <= k < p.cells.len() && placement::holds(
                                    #[trigger] p.cells[k],
                                    p.row,
                                    x,
                                );
                            assert(before.cells[k].row <= before.row);
                        }
                    }
                }
            },
            Item::Cell(id) => {
                let cell = placement::cell(before, nodes, collapse, id);
                placement::lemma_first_free_exists(
                    before.cells,
                    before.row,
                    cell.rowspan as int,
                    cell.colspan as int,
                );
                assert forall|k: int| 0 <= k < p.cells.len() implies (#[trigger] p.cells[k]).row
                    <= p.row by {
                    if k < before.cells.len() {
                        assert(p.cells[k] == before.cells[k]);
                    }
                }
                if !spans_into(p.cells, p.row) {
                    lemma_spans_into_push(before.cells, cell, p.row);
                    lemma_packed(
                        before.cells,
                        before.row,
                        before.col,
                        cell.rowspan as int,
                        cell.colspan as int,
                    );
                    assert(cell.col_start == before.col);
                    assert forall|x: int| 0 <= x implies (#[trigger] placement::occupied(
                        p.cells,
                        p.row,
                        x,
                    ) <==> x < p.col) by {
                        placement::lemma_occupied_push(before.cells, cell, p.row, x);
                        assert(placement::occupied(before.cells, p.row, x) <==> x < before.col);
                    }
                }
            },
        }
    }
}

proof fn lemma_spans_into_push(cells: Seq<TableCell>, cell: TableCell, row: int)
    requires
        !spans_into(cells.push(cell), row),
    ensures
        !spans_into(cells, row),
{
    if spans_into(cells, row) {
        let k = choose|k: int|
            0 <= k < cells.len() && (#[trigger] cells[k]).row < row < placement::bottom(
                cells[k].row as int,
                cells[k].rowspan as int,
            );
        assert(cells.push(cell)[k] == cells[k]);
    }
}

/// Where the first `col` columns of a row are taken and no others, a cell has room
/// behind them.
proof fn lemma_packed(cells: Seq<TableCell>, row: int, col: int, rowspan: int, colspan: int)
    requires
        0 <= row,
        0 <= col,
        1 <= rowspan,
        1 <= colspan,
        forall|k: int| 0 <= k < cells.len() ==> (#[trigger] cells[k]).row <= row,
        forall|x: int| 0 <= x ==> (#[trigger] placement::occupied(cells, row, x) <==> x < col),
    ensures
        placement::first_free(cells, row, rowspan, colspan) == col,
{
    placement::lemma_free_in_row(cells, row, rowspan, col, colspan);
    assert forall|b: int| 0 <= b < col implies !#[trigger] placement::free(
        cells,
        row,
        rowspan,
        b,
        colspan,
    ) by {
        assert(placement::occupied(cells, row, b));
    }
    placement::lemma_first_free(cells, row, rowspan, colspan, col);
}

/// A cell starts at the first column at which it has room, beside the cells before it:
/// it skips the columns that cells of earlier rows span into.
pub proof fn law_left_edge(
    nodes: Seq<NodeView>,
    is_fixed: bool,
    collapse: BorderCollapse,
    items: Seq<Item>,
    k: int,
)
    requires
        0 <= k < items.len(),
        items[k] is Cell,
        placement::fits(placement::nothing(), nodes, is_fixed, collapse, items),
    ensures
        ({
            let before = fresh(nodes, is_fixed, collapse, items.take(k));
            let cell = fresh(nodes, is_fixed, collapse, items).cells[cell_place(items, k)];
            &&& cell.row == row_ids(items.take(k)).len()
            &&& placement::is_first_free(
                before.cells,
                cell.row as int,
                cell.rowspan as int,
                cell.colspan as int,
                cell.col_start as int,
            )
        }),
{
    lemma_cell_at(nodes, is_fixed, collapse, items, k);
    law_document_order(nodes, is_fixed, collapse, items.take(k));
    placement::lemma_fits_prefix(placement::nothing(), nodes, is_fixed, collapse, items, k);
    placement::lemma_fits_prefix(placement::nothing(), nodes, is_fixed, collapse, items, k + 1);
    lemma_state(nodes, is_fixed, collapse, items.take(k));
    assert(items.take(k + 1).drop_last() =~= items.take(k));
    assert(items.take(k + 1).last() == items[k]);
    let before = fresh(nodes, is_fixed, collapse, items.take(k));
    let id = items[k]->Cell_0;
    placement::lemma_first_free_exists(
        before.cells,
        before.row,
        spans::rowspan(nodes[id as int].rowspan) as int,
        spans::colspan(nodes[id as int].colspan) as int,
    );
}

/// No two cells take up the same place.
pub proof fn law_cells_apart(
    nodes: Seq<NodeView>,
    is_fixed: bool,
    collapse: BorderCollapse,
    items: Seq<Item>,
    i: int,
    j: int,
    row: int,
    c: int,
)
    requires
        placement::fits(placement::nothing(), nodes, is_fixed, collapse, items),
        0 <= i < j < fresh(nodes, is_fixed, collapse, items).cells.len(),
    ensures
        ({
            let cells = fresh(nodes, is_fixed, collapse, items).cells;
            !(placement::holds(cells[i], row, c) && placement::holds(cells[j], row, c))
        }),
    decreases items.len(),
{
    let before = fresh(nodes, is_fixed, collapse, items.drop_last());
    let cells = fresh(nodes, is_fixed, collapse, items).cells;
    lemma_state(nodes, is_fixed, collapse, items.drop_last());
    match items.last() {
        Item::Row(id) => {
            law_cells_apart(nodes, is_fixed, collapse, items.drop_last(), i, j, row, c);
        },
        Item::Cell(id) => {
            if j < before.cells.len() {
                law_cells_apart(nodes, is_fixed, collapse, items.drop_last(), i, j, row, c);
            } else if placement::holds(cells[j], row, c) && placement::holds(cells[i], row, c) {
                placement::lemma_first_free_exists(
                    before.cells,
                    before.row,
                    cells[j].rowspan as int,
                    cells[j].colspan as int,
                );
                assert(placement::holds(before.cells[i], row, c));
                assert(placement::occupied(before.cells, row, c));
            }
        },
    }
}

/// The first cell of a row into which no earlier cell spans starts at its first column.
pub proof fn law_row_starts(
    nodes: Seq<NodeView>,
    is_fixed: bool,
    collapse: BorderCollapse,
    items: Seq<Item>,
    k: int,
)
    requires
        0 < k < items.len(),
        items[k - 1] is Row,
        items[k] is Cell,
        placement::fits(placement::nothing(), nodes, is_fixed, collapse, items),
        ({
            let before = fresh(nodes, is_fixed, collapse, items.take(k));
            !spans_into(before.cells, before.row)
        }),
    ensures
        fresh(nodes, is_fixed, collapse, items).cells[cell_place(items, k)].col_start == 0,
{
    lemma_cell_packed(nodes, is_fixed, collapse, items, k);
    assert(items.take(k).drop_last() =~= items.take(k - 1));
    assert(items.take(k).last() == items[k - 1]);
}

/// A cell of a row into which no earlier cell spans starts behind the cells before it.
proof fn lemma_cell_packed(
    nodes: Seq<NodeView>,
    is_fixed: bool,
    collapse: BorderCollapse,
    items: Seq<Item>,
    k: int,
)
    requires
        0 <= k < items.len(),
        items[k] is Cell,
        placement::fits(placement::nothing(), nodes, is_fixed, collapse, items),
        ({
            let before = fresh(nodes, is_fixed, collapse, items.take(k));
            !spans_into(before.cells, before.row)
        }),
    ensures
        fresh(nodes, is_fixed, collapse, items).cells[cell_place(items, k)].col_start == fresh(
            nodes,
            is_fixed,
            collapse,
            items.take(k),
        ).col,
{
    let before = fresh(nodes, is_fixed, collapse, items.take(k));
    let id = items[k]->Cell_0;
    lemma_cell_at(nodes, is_fixed, collapse, items, k);
    placement::lemma_fits_prefix(placement::nothing(), nodes, is_fixed, collapse, items, k);
    lemma_state(nodes, is_fixed, collapse, items.take(k));
    lemma_packed(
        before.cells,
        before.row,
        before.col,
        spans::rowspan(nodes[id as int].rowspan) as int,
        spans::colspan(nodes[id as int].colspan) as int,
    );
}

/// In a row into which no earlier cell spans, a cell starts where the cell before it
/// ends.
pub proof fn law_cells_adjoin(
    nodes: Seq<NodeView>,
    is_fixed: bool,
    collapse: BorderCollapse,
    items: Seq<Item>,
    k: int,
)
    requires
        0 < k < items.len(),
        items[k - 1] is Cell,
        items[k] is Cell,
        placement::fits(placement::nothing(), nodes, is_fixed, collapse, items),
        ({
            let before = fresh(nodes, is_fixed, collapse, items.take(k));
            !spans_into(before.cells, before.row)
        }),
    ensures
        ({
            let cells = fresh(nodes, is_fixed, collapse, items).cells;
            let left = cells[cell_place(items, k - 1)];
            let right = cells[cell_place(items, k)];
            &&& cell_place(items, k) == cell_place(items, k - 1) + 1
            &&& right.col_start == left.col_start + left.colspan
            &&& right.row == left.row
            &&& right.style.row.start == left.style.row.start
        }),
{
    assert(items.take(k).drop_last() =~= items.take(k - 1));
    assert(items.take(k).last() == items[k - 1]);
    let first = fresh(nodes, is_fixed, collapse, items.take(k - 1));
    lemma_cell_at(nodes, is_fixed, collapse, items, k - 1);
    lemma_cell_at(nodes, is_fixed, collapse, items, k);
    lemma_spans_into_push(
        first.cells,
        placement::cell(first, nodes, collapse, items[k - 1]->Cell_0),
        first.row,
    );
    lemma_cell_packed(nodes, is_fixed, collapse, items, k - 1);
    lemma_cell_packed(nodes, is_fixed, collapse, items, k);
}

/// Whether an item is a node with the display of a row or of a cell.
pub open spec fn has_role(nodes: Seq<NodeView>, item: Item) -> bool {
    match item {
        Item::Row(id) => id < nodes.len() && walk::role(nodes[id as int]) == Role::Row,
        Item::Cell(id) => id < nodes.len() && walk::role(nodes[id as int]) == Role::Cell,
    }
}

/// The rows and cells that a node stands for are nodes with the display of rows and
/// of cells.
pub proof fn law_items_have_roles(nodes: Seq<NodeView>, id: usize, k: int)
    requires
        0 <= k < walk::items(nodes, id).len(),
    ensures
        has_role(nodes, walk::items(nodes, id)[k]),
    decreases document::children_in_all(nodes), 1nat, 0nat,
{
    if id < nodes.len() {
        let children = nodes[id as int].children;
        let rest = document::childless(nodes, id as int);
        document::lemma_childless(nodes, id as int);
        let all = walk::items(nodes, id);
        let at = match walk::role(nodes[id as int]) {
            Role::Row => k - 1,
            _ => k,
        };
        if walk::role(nodes[id as int]) != Role::Cell && at >= 0 {
            assert(children.len() > 0);
            lemma_items_of_have_roles(rest, children, at);
            assert(has_role(rest, all[k]));
        }
    }
}

proof fn lemma_items_of_have_roles(nodes: Seq<NodeView>, ids: Seq<usize>, k: int)
    requires
        0 <= k < walk::items_of(nodes, ids).len(),
    ensures
        has_role(nodes, walk::items_of(nodes, ids)[k]),
    decreases document::children_in_all(nodes), 2nat, ids.len(),
{
    if ids.len() > 0 {
        let before = walk::items_of(nodes, ids.drop_last());
        if k < before.len() {
            lemma_items_of_have_roles(nodes, ids.drop_last(), k);
        } else {
            law_items_have_roles(nodes, ids.last(), k - before.len());
        }
    }
}

/// Repairing the damage of the same nodes again changes nothing.
pub proof fn law_repairs_once(damage: Seq<Damage>, which: Set<int>)
    ensures
        walk::after_repairs(walk::after_repairs(damage, which), which) == walk::after_repairs(
            damage,
            which,
        ),
{
    assert(walk::after_repairs(walk::after_repairs(damage, which), which)
        =~= walk::after_repairs(damage, which));
}

/// Whether the node at a place in a list is a child of the one before it.
pub open spec fn descends(nodes: Seq<NodeView>, path: Seq<usize>, k: int) -> bool {
    path[k - 1] < nodes.len() && nodes[path[k - 1] as int].children.contains(path[k])
}

/// Whether a list of nodes leads from `from` to `to`, each node a child of the one
/// before it.
pub open spec fn is_path(nodes: Seq<NodeView>, path: Seq<usize>, from: usize, to: usize) -> bool {
    &&& path.len() > 0
    &&& path[0] == from
    &&& path.last() == to
    &&& forall|k: int| 0 < k < path.len() ==> #[trigger] descends(nodes, path, k)
}

/// Whether the node `to` is the node `from` or a descendant of it.
pub open spec fn reaches(nodes: Seq<NodeView>, from: usize, to: usize) -> bool {
    exists|path: Seq<usize>| is_path(nodes, path, from, to)
}

/// What a child reaches, its parent reaches.
proof fn lemma_reaches_through(nodes: Seq<NodeView>, parent: usize, child: usize, to: usize)
    requires
        parent < nodes.len(),
        nodes[parent as int].children.contains(child),
        reaches(nodes, child, to),
    ensures
        reaches(nodes, parent, to),
{
    let path = choose|path: Seq<usize>| is_path(nodes, path, child, to);
    let longer = seq![parent] + path;
    assert forall|k: int| 0 < k < longer.len() implies #[trigger] descends(nodes, longer, k) by {
        assert(longer[k] == path[k - 1]);
        if k > 1 {
            assert(longer[k - 1] == path[k - 2]);
            assert(descends(nodes, path, k - 1));
        }
    }
    assert(is_path(nodes, longer, parent, to));
}

/// Fewer children reach no more.
proof fn lemma_reaches_childless(nodes: Seq<NodeView>, id: int, from: usize, to: usize)
    requires
        0 <= id < nodes.len(),
        reaches(document::childless(nodes, id), from, to),
    ensures
        reaches(nodes, from, to),
{
    let rest = document::childless(nodes, id);
    let path = choose|path: Seq<usize>| is_path(rest, path, from, to);
    assert forall|k: int| 0 < k < path.len() implies #[trigger] descends(nodes, path, k) by {
        assert(descends(rest, path, k));
        assert(path[k - 1] != id);
    }
    assert(is_path(nodes, path, from, to));
}

/// The rows and cells that a node stands for do not depend on the children of a node
/// that it does not reach.
proof fn lemma_items_unreached(nodes: Seq<NodeView>, from: usize, id: usize)
    requires
        id < nodes.len(),
        !reaches(nodes, from, id),
    ensures
        walk::items(document::childless(nodes, id as int), from) == walk::items(nodes, from),
    decreases document::children_in_all(nodes), 1nat, 0nat,
{
    let rest = document::childless(nodes, id as int);
    if from < nodes.len() {
        assert(from != id) by {
            if from == id {
                assert(is_path(nodes, seq![from], from, id));
            }
        }
        let children = nodes[from as int].children;
        assert(rest[from as int] == nodes[from as int]);
        let inner = document::childless(nodes, from as int);
        document::lemma_childless(nodes, from as int);
        if children.len() > 0 {
            assert(document::childless(rest, from as int) =~= document::childless(
                inner,
                id as int,
            ));
            assert forall|k: int| 0 <= k < children.len() implies !reaches(
                inner,
                #[trigger] children[k],
                id,
            ) by {
                if reaches(inner, children[k], id) {
                    lemma_reaches_childless(nodes, from as int, children[k], id);
                    assert(children.contains(children[k]));
                    lemma_reaches_through(nodes, from, children[k], id);
                }
            }
            lemma_items_of_unreached(inner, children, id);
        }
    }
}

proof fn lemma_items_of_unreached(nodes: Seq<NodeView>, ids: Seq<usize>, id: usize)
    requires
        id < nodes.len(),
        forall|k: int| 0 <= k < ids.len() ==> !reaches(nodes, #[trigger] ids[k], id),
    ensures
        walk::items_of(document::childless(nodes, id as int), ids) == walk::items_of(nodes, ids),
    decreases document::children_in_all(nodes), 2nat, ids.len(),
{
    if ids.len() > 0 {
        assert forall|k: int| 0 <= k < ids.drop_last().len() implies !reaches(
            nodes,
            #[trigger] ids.drop_last()[k],
            id,
        ) by {
            assert(ids.drop_last()[k] == ids[k]);
        }
        lemma_items_of_unreached(nodes, ids.drop_last(), id);
        assert(ids[ids.len() - 1] == ids.last());
        lemma_items_unreached(nodes, ids.last(), id);
    }
}

/// The placement after the rows and cells that each of the nodes `ids` stands for, one
/// node after the other.
pub open spec fn placed_in_turn(
    p: PlacementView,
    nodes: Seq<NodeView>,
    is_fixed: bool,
    collapse: BorderCollapse,
    ids: Seq<usize>,
) -> PlacementView
    decreases ids.len(),
{
    if ids.len() == 0 {
        p
    } else {
        placement::placed(
            placed_in_turn(p, nodes, is_fixed, collapse, ids.drop_last()),
            nodes,
            is_fixed,
            collapse,
            walk::items(nodes, ids.last()),
        )
    }
}

proof fn lemma_in_turn(
    p: PlacementView,
    nodes: Seq<NodeView>,
    is_fixed: bool,
    collapse: BorderCollapse,
    ids: Seq<usize>,
)
    ensures
        placed_in_turn(p, nodes, is_fixed, collapse, ids) == placement::placed(
            p,
            nodes,
            is_fixed,
            collapse,
            walk::items_of(nodes, ids),
        ),
    decreases ids.len(),
{
    if ids.len() > 0 {
        lemma_in_turn(p, nodes, is_fixed, collapse, ids.drop_last());
        placement::lemma_placed_concat(
            p,
            nodes,
            is_fixed,
            collapse,
            walk::items_of(nodes, ids.drop_last()),
            walk::items(nodes, ids.last()),
        );
    }
}

/// A group of rows, or an element without a box of its own, counts as its children in
/// turn: wrapping rows in a group changes nothing, header and footer groups stay where
/// they are, and the columns go on being counted. No child may reach the group again.
pub proof fn law_group_is_its_children(
    p: PlacementView,
    nodes: Seq<NodeView>,
    is_fixed: bool,
    collapse: BorderCollapse,
    id: usize,
)
    requires
        id < nodes.len(),
        walk::role(nodes[id as int]) == Role::Group,
        forall|k: int|
            0 <= k < nodes[id as int].children.len() ==> !reaches(
                nodes,
                #[trigger] nodes[id as int].children[k],
                id,
            ),
    ensures
        placement::placed(p, nodes, is_fixed, collapse, walk::items(nodes, id))
            == placed_in_turn(p, nodes, is_fixed, collapse, nodes[id as int].children),
{
    let children = nodes[id as int].children;
    lemma_in_turn(p, nodes, is_fixed, collapse, children);
    lemma_items_of_unreached(nodes, children, id);
}

}
