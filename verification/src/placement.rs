//! Placing the cells of a table in its rows and columns.

use vstd::prelude::*;

use crate::binary32::Binary32;
use crate::document::{BorderCollapse, BorderWidths, Document, InlineSize, NodeStyle, NodeView};
use crate::number::Number;
use crate::spans;
use crate::walk::Item;

verus! {

/// How wide a column is to be.
#[derive(Clone, Copy, Debug, PartialEq, Eq, Structural)]
pub enum Track {
    /// In pixels.
    Length(Binary32),
    /// As a part of the table's width, which is one.
    Percent(Binary32),
    Auto,
}

/// Where a place in the grid starts.
#[derive(Clone, Copy, Debug, PartialEq, Eq, Structural)]
pub enum GridLine {
    /// At a line, where the first line is 1.
    Line(i16),
    /// Where the grid finds room.
    Auto,
}

/// A cell's place in the rows or in the columns of the grid.
#[derive(Clone, Copy, Debug, PartialEq, Eq, Structural)]
pub struct GridPlace {
    pub start: GridLine,
    pub span: u16,
}

/// How the grid lays out a cell. All else is the cell's own style.
#[derive(Clone, Copy, Debug, PartialEq, Eq, Structural)]
pub struct CellStyle {
    pub column: GridPlace,
    pub row: GridPlace,
    pub width: Track,
    /// Whether the cell goes without its own borders, which the table draws.
    pub borderless: bool,
}

/// A cell of a table.
#[derive(Clone, Copy, Debug, PartialEq, Eq, Structural)]
pub struct TableCell {
    pub node_id: usize,
    /// The cell's row, where the first row is 1. It is 0 for a cell outside of all
    /// rows.
    pub row: u16,
    /// Number of rows the cell spans (>= 1).
    pub rowspan: u16,
    /// 0-based grid column of the cell's left edge: the first one at which the cell
    /// has room beside the cells of its row and those that span into it from earlier
    /// rows. The grid has no row for cells outside of all rows. They count as a row of
    /// their own.
    pub col_start: u16,
    /// Number of columns the cell spans (>= 1).
    pub colspan: u16,
    /// The cell's authored width. In the grid it is automatic.
    pub specified_width: InlineSize,
    pub style: CellStyle,
}

/// A row of a table.
#[derive(Clone, Copy, Debug, PartialEq, Eq, Structural)]
pub struct TableRow {
    pub node_id: usize,
    pub height: Binary32,
}

/// The borders of a cell.
#[derive(Clone, Copy, Debug, PartialEq, Eq, Structural)]
pub struct CellBorder {
    pub node_id: usize,
    pub widths: BorderWidths,
}

/// How far a table is built.
#[derive(Debug)]
pub struct Placement {
    /// The number of rows so far.
    pub row: u16,
    /// The number of columns that the cells of the current row span together.
    pub col: u16,
    pub cells: Vec<TableCell>,
    pub rows: Vec<TableRow>,
    /// The widths that the cells of the first row ask for.
    pub columns: Vec<Track>,
    pub first_cell_border: Option<CellBorder>,
    /// For each column, the first row in which it is free again.
    pub bottoms: Vec<u32>,
}

/// All there is to a [`Placement`] but what follows from its cells.
#[verifier::ext_equal]
pub struct PlacementView {
    pub row: int,
    pub col: int,
    pub cells: Seq<TableCell>,
    pub rows: Seq<TableRow>,
    pub columns: Seq<Track>,
    pub first_cell_border: Option<CellBorder>,
}

impl View for Placement {
    type V = PlacementView;

    open spec fn view(&self) -> PlacementView {
        PlacementView {
            row: self.row as int,
            col: self.col as int,
            cells: self.cells@,
            rows: self.rows@,
            columns: self.columns@,
            first_cell_border: self.first_cell_border,
        }
    }
}

/// The grid line of a row. Lines are 16-bit signed integers and wrap around.
pub open spec fn line(row: int) -> i16 {
    (if row <= i16::MAX {
        row
    } else {
        row - 65536
    }) as i16
}

/// The width that a cell of the first row asks for its column. A percentage counts
/// only where the layout is fixed.
pub open spec fn track(style: NodeStyle, is_fixed: bool) -> Track {
    match style.width {
        InlineSize::Length(width) => Track::Length(
            width.sum(style.padding_left).sum(style.padding_right),
        ),
        InlineSize::Percent(part) => if is_fixed {
            Track::Percent(part)
        } else {
            Track::Auto
        },
        _ => Track::Auto,
    }
}

/// A table before anything is placed in it.
pub open spec fn nothing() -> PlacementView {
    PlacementView {
        row: 0,
        col: 0,
        cells: Seq::empty(),
        rows: Seq::empty(),
        columns: Seq::empty(),
        first_cell_border: None,
    }
}

/// What a node's style is. A cell always has one.
pub open spec fn style_of(nodes: Seq<NodeView>, id: usize) -> NodeStyle {
    nodes[id as int].style.unwrap()
}

/// The row after the last one that a cell of the row `row` spans. Cells outside of all
/// rows, in the row 0, do not span into others.
pub open spec fn bottom(row: int, rowspan: int) -> int {
    if row == 0 {
        1
    } else {
        row + rowspan
    }
}

/// Whether a cell takes up the place in the row `row` and the column `c`.
pub open spec fn holds(cell: TableCell, row: int, c: int) -> bool {
    &&& cell.row <= row < bottom(cell.row as int, cell.rowspan as int)
    &&& cell.col_start <= c < cell.col_start + cell.colspan
}

/// Whether one of the cells takes up the place in the row `row` and the column `c`.
pub open spec fn occupied(cells: Seq<TableCell>, row: int, c: int) -> bool {
    exists|k: int| 0 <= k < cells.len() && holds(#[trigger] cells[k], row, c)
}

/// Whether a cell of the row `row` with the given spans has room at the column `c`.
pub open spec fn free(
    cells: Seq<TableCell>,
    row: int,
    rowspan: int,
    c: int,
    colspan: int,
) -> bool {
    forall|r: int, x: int|
        row <= r < bottom(row, rowspan) && c <= x < c + colspan ==> !#[trigger] occupied(
            cells,
            r,
            x,
        )
}

/// Whether `c` is the first column at which a cell of the row `row` with the given
/// spans has room.
pub open spec fn is_first_free(
    cells: Seq<TableCell>,
    row: int,
    rowspan: int,
    colspan: int,
    c: int,
) -> bool {
    &&& 0 <= c
    &&& free(cells, row, rowspan, c, colspan)
    &&& forall|b: int| 0 <= b < c ==> !#[trigger] free(cells, row, rowspan, b, colspan)
}

/// The first column at which a cell of the row `row` with the given spans has room.
pub open spec fn first_free(cells: Seq<TableCell>, row: int, rowspan: int, colspan: int) -> int {
    choose|c: int| is_first_free(cells, row, rowspan, colspan, c)
}

/// The first column at which the node `id` has room in the current row of a placement.
pub open spec fn left_edge(p: PlacementView, nodes: Seq<NodeView>, id: usize) -> int {
    first_free(
        p.cells,
        p.row,
        spans::rowspan(nodes[id as int].rowspan) as int,
        spans::colspan(nodes[id as int].colspan) as int,
    )
}

/// How the grid lays out a cell of the row `row` with the given spans. It finds the
/// cell's columns by itself, and gives the cell their width, whatever was authored.
pub open spec fn cell_style(
    row: int,
    rowspan: u16,
    colspan: u16,
    collapse: BorderCollapse,
) -> CellStyle {
    CellStyle {
        column: GridPlace { start: GridLine::Auto, span: colspan },
        row: GridPlace { start: GridLine::Line(line(row)), span: rowspan },
        width: Track::Auto,
        borderless: collapse == BorderCollapse::Collapse,
    }
}

/// The cell that the node `id` becomes in the current row of a placement.
pub open spec fn cell(
    p: PlacementView,
    nodes: Seq<NodeView>,
    collapse: BorderCollapse,
    id: usize,
) -> TableCell {
    TableCell {
        node_id: id,
        row: p.row as u16,
        rowspan: spans::rowspan(nodes[id as int].rowspan),
        col_start: left_edge(p, nodes, id) as u16,
        colspan: spans::colspan(nodes[id as int].colspan),
        specified_width: style_of(nodes, id).width,
        style: cell_style(
            p.row,
            spans::rowspan(nodes[id as int].rowspan),
            spans::colspan(nodes[id as int].colspan),
            collapse,
        ),
    }
}

/// The placement after one more row or cell.
pub open spec fn step(
    p: PlacementView,
    nodes: Seq<NodeView>,
    is_fixed: bool,
    collapse: BorderCollapse,
    item: Item,
) -> PlacementView {
    match item {
        Item::Row(id) => PlacementView {
            row: p.row + 1,
            col: 0,
            rows: p.rows.push(TableRow { node_id: id, height: Binary32::zero() }),
            ..p
        },
        Item::Cell(id) => PlacementView {
            col: p.col + spans::colspan(nodes[id as int].colspan),
            cells: p.cells.push(cell(p, nodes, collapse, id)),
            columns: if p.row == 1 {
                p.columns.push(track(style_of(nodes, id), is_fixed))
            } else {
                p.columns
            },
            first_cell_border: match p.first_cell_border {
                Some(border) => Some(border),
                None => Some(CellBorder { node_id: id, widths: style_of(nodes, id).border }),
            },
            ..p
        },
    }
}

/// The placement after the given rows and cells, in turn.
pub open spec fn placed(
    p: PlacementView,
    nodes: Seq<NodeView>,
    is_fixed: bool,
    collapse: BorderCollapse,
    items: Seq<Item>,
) -> PlacementView
    decreases items.len(),
{
    if items.len() == 0 {
        p
    } else {
        step(
            placed(p, nodes, is_fixed, collapse, items.drop_last()),
            nodes,
            is_fixed,
            collapse,
            items.last(),
        )
    }
}

/// Whether a row or cell is one of the document and can be placed: rows and columns
/// are counted in 16 bits, and a calculated width is not resolved to a column's.
pub open spec fn step_fits(p: PlacementView, nodes: Seq<NodeView>, item: Item) -> bool {
    match item {
        Item::Row(id) => p.row < u16::MAX,
        Item::Cell(id) => {
            &&& id < nodes.len()
            &&& nodes[id as int].style is Some
            &&& p.col + spans::colspan(nodes[id as int].colspan) <= u16::MAX
            &&& left_edge(p, nodes, id) + spans::colspan(nodes[id as int].colspan) <= u16::MAX
            &&& p.row == 1 ==> style_of(nodes, id).width != InlineSize::Calculated
        },
    }
}

/// Whether all rows and cells can be placed.
pub open spec fn fits(
    p: PlacementView,
    nodes: Seq<NodeView>,
    is_fixed: bool,
    collapse: BorderCollapse,
    items: Seq<Item>,
) -> bool
    decreases items.len(),
{
    items.len() == 0 || {
        &&& fits(p, nodes, is_fixed, collapse, items.drop_last())
        &&& step_fits(
            placed(p, nodes, is_fixed, collapse, items.drop_last()),
            nodes,
            items.last(),
        )
    }
}

fn line_of(row: u16) -> (r: i16)
    ensures
        r == line(row as int),
{
    let wide: i32 = row as i32;
    if wide <= 0x7fff {
        wide as i16
    } else {
        (wide - 0x1_0000) as i16
    }
}

fn track_of(style: NodeStyle, is_fixed: bool) -> (r: Track)
    ensures
        r == track(style, is_fixed),
{
    match style.width {
        InlineSize::Length(width) => Track::Length(
            width.plus(style.padding_left).plus(style.padding_right),
        ),
        InlineSize::Percent(part) => if is_fixed {
            Track::Percent(part)
        } else {
            Track::Auto
        },
        _ => Track::Auto,
    }
}

/// There is one first column with room at most.
pub proof fn lemma_first_free(cells: Seq<TableCell>, row: int, rowspan: int, colspan: int, c: int)
    requires
        is_first_free(cells, row, rowspan, colspan, c),
    ensures
        first_free(cells, row, rowspan, colspan) == c,
{
    let b = first_free(cells, row, rowspan, colspan);
    assert(is_first_free(cells, row, rowspan, colspan, b));
    assert(free(cells, row, rowspan, b, colspan));
    assert(free(cells, row, rowspan, c, colspan));
}

/// There is a column with room: all columns to the right of the cells have it.
pub proof fn lemma_first_free_exists(
    cells: Seq<TableCell>,
    row: int,
    rowspan: int,
    colspan: int,
)
    ensures
        is_first_free(
            cells,
            row,
            rowspan,
            colspan,
            first_free(cells, row, rowspan, colspan),
        ),
{
    let right = u16::MAX + u16::MAX;
    assert forall|r: int, x: int| right <= x implies !#[trigger] occupied(cells, r, x) by {}
    assert(free(cells, row, rowspan, right, colspan));
    let c = first_from(cells, row, rowspan, colspan, 0, right);
    assert(is_first_free(cells, row, rowspan, colspan, c));
}

/// The first column with room from `c` on, where `right` has room.
proof fn first_from(
    cells: Seq<TableCell>,
    row: int,
    rowspan: int,
    colspan: int,
    c: int,
    right: int,
) -> (r: int)
    requires
        0 <= c <= right,
        free(cells, row, rowspan, right, colspan),
        forall|b: int| 0 <= b < c ==> !#[trigger] free(cells, row, rowspan, b, colspan),
    ensures
        is_first_free(cells, row, rowspan, colspan, r),
    decreases right - c,
{
    if free(cells, row, rowspan, c, colspan) {
        c
    } else {
        first_from(cells, row, rowspan, colspan, c + 1, right)
    }
}

/// Where no cell starts below the row `row`, a cell has room as soon as it has room in
/// that row.
pub proof fn lemma_free_in_row(
    cells: Seq<TableCell>,
    row: int,
    rowspan: int,
    c: int,
    colspan: int,
)
    requires
        1 <= rowspan,
        forall|k: int| 0 <= k < cells.len() ==> (#[trigger] cells[k]).row <= row,
    ensures
        free(cells, row, rowspan, c, colspan) <==> forall|x: int|
            c <= x < c + colspan ==> !#[trigger] occupied(cells, row, x),
{
    if forall|x: int| c <= x < c + colspan ==> !#[trigger] occupied(cells, row, x) {
        assert forall|r: int, x: int|
            row <= r < bottom(row, rowspan) && c <= x < c + colspan implies !#[trigger] occupied(
            cells,
            r,
            x,
        ) by {
            if occupied(cells, r, x) {
                let k = choose|k: int| 0 <= k < cells.len() && holds(#[trigger] cells[k], r, x);
                assert(holds(cells[k], row, x));
                assert(occupied(cells, row, x));
            }
        }
    }
}

impl Placement {
    /// Whether the places that are taken are known: no cell stands below the current
    /// row, and for each column the row is known in which it is free again.
    pub open spec fn wf(&self) -> bool {
        &&& forall|k: int| 0 <= k < self.cells@.len() ==> (#[trigger] self.cells@[k]).row <= self.row
        &&& self.bottoms@.len() <= u16::MAX
        &&& forall|r: int, c: int|
            self.row <= r && 0 <= c ==> (#[trigger] occupied(self.cells@, r, c) <==> c
                < self.bottoms@.len() && r < self.bottoms@[c])
    }

    /// A placement with nothing in it.
    pub fn new() -> (p: Placement)
        ensures
            p@ == nothing(),
            p.wf(),
    {
        let p: Placement = Placement {
            row: 0,
            col: 0,
            cells: Vec::new(),
            rows: Vec::new(),
            columns: Vec::new(),
            first_cell_border: None,
            bottoms: Vec::new(),
        };
        assert(p@ =~= nothing());
        p
    }

    /// The first column at which a cell with the given spans has room in the current
    /// row.
    fn first_free_column(&self, rowspan: u16, colspan: u16) -> (start: usize)
        requires
            self.wf(),
            1 <= rowspan,
            1 <= colspan,
        ensures
            start <= u16::MAX,
            is_first_free(
                self@.cells,
                self@.row,
                rowspan as int,
                colspan as int,
                start as int,
            ),
            start == first_free(self@.cells, self@.row, rowspan as int, colspan as int),
    {
        let row: u32 = self.row as u32;
        let width: usize = colspan as usize;
        let ghost cells = self@.cells;
        let mut start: usize = 0;
        let mut i: usize = 0;
        while i < self.bottoms.len() && i < start + width
            invariant
                self.wf(),
                row == self.row,
                cells == self@.cells,
                width == colspan,
                1 <= width <= u16::MAX,
                1 <= rowspan,
                start <= i <= start + width,
                i <= self.bottoms.len() <= u16::MAX,
                forall|x: int| start <= x < i ==> !#[trigger] occupied(cells, row as int, x),
                forall|b: int|
                    0 <= b < start ==> !#[trigger] free(
                        cells,
                        row as int,
                        rowspan as int,
                        b,
                        width as int,
                    ),
            decreases self.bottoms.len() - i,
        {
            assert(occupied(cells, row as int, i as int) <==> row < self.bottoms@[i as int]);
            if self.bottoms[i] > row {
                proof {
                    assert forall|b: int| start <= b < i + 1 implies !#[trigger] free(
                        cells,
                        row as int,
                        rowspan as int,
                        b,
                        width as int,
                    ) by {
                        assert(occupied(cells, row as int, i as int));
                    }
                }
                start = i + 1;
            }
            i = i + 1;
        }
        proof {
            assert forall|x: int| start <= x < start + width implies !#[trigger] occupied(
                cells,
                row as int,
                x,
            ) by {}
            lemma_free_in_row(cells, row as int, rowspan as int, start as int, width as int);
            lemma_first_free(cells, row as int, rowspan as int, width as int, start as int);
        }
        start
    }

    /// Notes that a cell was placed.
    fn cover(&mut self, start: usize, colspan: u16, until: u32)
        requires
            start + colspan <= u16::MAX,
            old(self).bottoms@.len() <= u16::MAX,
        ensures
            final(self)@ == old(self)@,
            final(self).bottoms@.len() <= u16::MAX,
            start + colspan <= final(self).bottoms@.len(),
            old(self).bottoms@.len() <= final(self).bottoms@.len(),
            forall|c: int|
                0 <= c < final(self).bottoms@.len() ==> #[trigger] final(self).bottoms@[c]
                    == if start <= c < start + colspan {
                    until
                } else if c < old(self).bottoms@.len() {
                    old(self).bottoms@[c]
                } else {
                    0
                },
    {
        let end: usize = start + colspan as usize;
        let ghost before = self.bottoms@;
        while self.bottoms.len() < end
            invariant
                end <= u16::MAX,
                before == old(self).bottoms@,
                before.len() <= self.bottoms.len() <= u16::MAX,
                self@ == old(self)@,
                forall|c: int|
                    0 <= c < self.bottoms@.len() ==> #[trigger] self.bottoms@[c] == if c
                        < before.len() {
                        before[c]
                    } else {
                        0
                    },
            decreases end - self.bottoms.len(),
        {
            self.bottoms.push(0);
        }
        let mut i: usize = start;
        while i < end
            invariant
                start <= i <= end,
                end == start + colspan,
                end <= self.bottoms.len(),
                before == old(self).bottoms@,
                before.len() <= self.bottoms.len() <= u16::MAX,
                self@ == old(self)@,
                forall|c: int|
                    0 <= c < self.bottoms@.len() ==> #[trigger] self.bottoms@[c] == if start <= c
                        < i {
                        until
                    } else if c < before.len() {
                        before[c]
                    } else {
                        0
                    },
            decreases end - i,
        {
            self.bottoms.set(i, until);
            i = i + 1;
        }
    }

    /// Whether one more row or cell can be placed.
    pub fn can_place(&self, doc: &Document, item: Item) -> (r: bool)
        requires
            self.wf(),
        ensures
            r == step_fits(self@, doc.structure(), item),
    {
        match item {
            Item::Row(_) => self.row < u16::MAX,
            Item::Cell(id) => {
                if id >= doc.nodes.len() {
                    return false;
                }
                assert(doc.nodes@[id as int]@ == doc.structure()[id as int]);
                match doc.nodes[id].style {
                    Some(style) => {
                        let colspan: u16 = spans::colspan_of(&doc.nodes[id].colspan);
                        let rowspan: u16 = spans::rowspan_of(&doc.nodes[id].rowspan);
                        let start: usize = self.first_free_column(rowspan, colspan);
                        colspan <= u16::MAX - self.col && start + colspan as usize <= 0xffff && (
                        self.row != 1 || style.width != InlineSize::Calculated)
                    },
                    None => false,
                }
            },
        }
    }

    /// Places one more row or cell. A cell comes to stand at the first column at which
    /// it has room.
    pub fn place(
        &mut self,
        doc: &Document,
        is_fixed: bool,
        border_collapse: BorderCollapse,
        item: Item,
    )
        requires
            old(self).wf(),
            step_fits(old(self)@, doc.structure(), item),
        ensures
            final(self).wf(),
            final(self)@ == step(old(self)@, doc.structure(), is_fixed, border_collapse, item),
            item is Cell ==> ({
                let p = old(self)@;
                let cell = final(self)@.cells.last();
                let rowspan = cell.rowspan as int;
                let colspan = cell.colspan as int;
                &&& free(p.cells, p.row, rowspan, cell.col_start as int, colspan)
                &&& forall|c: int|
                    0 <= c < cell.col_start ==> !#[trigger] free(
                        p.cells,
                        p.row,
                        rowspan,
                        c,
                        colspan,
                    )
            }),
    {
        match item {
            Item::Row(id) => {
                self.row = self.row + 1;
                self.col = 0;
                self.rows.push(TableRow { node_id: id, height: Binary32::nil() });
            },
            Item::Cell(id) => {
                let node = &doc.nodes[id];
                assert(node@ == doc.structure()[id as int]);
                let style: NodeStyle = node.style.unwrap();
                let colspan: u16 = spans::colspan_of(&node.colspan);
                let rowspan: u16 = spans::rowspan_of(&node.rowspan);
                let start: usize = self.first_free_column(rowspan, colspan);
                if self.first_cell_border.is_none() {
                    self.first_cell_border = Some(
                        CellBorder { node_id: id, widths: style.border },
                    );
                }
                if self.row == 1 {
                    self.columns.push(track_of(style, is_fixed));
                }
                let cell: TableCell = TableCell {
                    node_id: id,
                    row: self.row,
                    rowspan,
                    col_start: start as u16,
                    colspan,
                    specified_width: style.width,
                    style: CellStyle {
                        column: GridPlace { start: GridLine::Auto, span: colspan },
                        row: GridPlace {
                            start: GridLine::Line(line_of(self.row)),
                            span: rowspan,
                        },
                        width: Track::Auto,
                        borderless: border_collapse == BorderCollapse::Collapse,
                    },
                };
                self.cells.push(cell);
                self.col = self.col + colspan;
                let until: u32 = if self.row == 0 {
                    1
                } else {
                    self.row as u32 + rowspan as u32
                };
                self.cover(start, colspan, until);
                proof {
                    lemma_covered(*old(self), *self, cell);
                }
            },
        }
        assert(self@ =~= step(old(self)@, doc.structure(), is_fixed, border_collapse, item));
    }

    /// Whether all of the given rows and cells can be placed, in turn.
    pub fn can_place_all(
        doc: &Document,
        is_fixed: bool,
        border_collapse: BorderCollapse,
        items: &[Item],
    ) -> (r: bool)
        ensures
            r == fits(nothing(), doc.structure(), is_fixed, border_collapse, items@),
    {
        let ghost nodes = doc.structure();
        let mut p: Placement = Placement::new();
        let mut k: usize = 0;
        assert(items@.take(0) =~= Seq::empty());
        while k < items.len()
            invariant
                k <= items.len(),
                p.wf(),
                nodes == doc.structure(),
                fits(nothing(), nodes, is_fixed, border_collapse, items@.take(k as int)),
                p@ == placed(nothing(), nodes, is_fixed, border_collapse, items@.take(k as int)),
            decreases items.len() - k,
        {
            assert(items@.take(k + 1).drop_last() =~= items@.take(k as int));
            if !p.can_place(doc, items[k]) {
                proof {
                    if fits(nothing(), nodes, is_fixed, border_collapse, items@) {
                        lemma_fits_prefix(
                            nothing(),
                            nodes,
                            is_fixed,
                            border_collapse,
                            items@,
                            k + 1,
                        );
                    }
                }
                return false;
            }
            p.place(doc, is_fixed, border_collapse, items[k]);
            k = k + 1;
        }
        assert(items@.take(items.len() as int) =~= items@);
        true
    }
}

/// Where all rows and cells can be placed, so can the first of them.
pub proof fn lemma_fits_prefix(
    p: PlacementView,
    nodes: Seq<NodeView>,
    is_fixed: bool,
    collapse: BorderCollapse,
    items: Seq<Item>,
    k: int,
)
    requires
        0 <= k <= items.len(),
        fits(p, nodes, is_fixed, collapse, items),
    ensures
        fits(p, nodes, is_fixed, collapse, items.take(k)),
    decreases items.len(),
{
    if k == items.len() {
        assert(items.take(k) =~= items);
    } else {
        lemma_fits_prefix(p, nodes, is_fixed, collapse, items.drop_last(), k);
        assert(items.drop_last().take(k) =~= items.take(k));
    }
}

/// Placing rows and cells in two goes is placing them in one.
pub proof fn lemma_placed_concat(
    p: PlacementView,
    nodes: Seq<NodeView>,
    is_fixed: bool,
    collapse: BorderCollapse,
    a: Seq<Item>,
    b: Seq<Item>,
)
    ensures
        placed(p, nodes, is_fixed, collapse, a + b) == placed(
            placed(p, nodes, is_fixed, collapse, a),
            nodes,
            is_fixed,
            collapse,
            b,
        ),
        fits(p, nodes, is_fixed, collapse, a + b) <==> fits(p, nodes, is_fixed, collapse, a)
            && fits(placed(p, nodes, is_fixed, collapse, a), nodes, is_fixed, collapse, b),
    decreases b.len(),
{
    if b.len() == 0 {
        assert(a + b =~= a);
    } else {
        lemma_placed_concat(p, nodes, is_fixed, collapse, a, b.drop_last());
        assert((a + b).drop_last() =~= a + b.drop_last());
    }
}

/// After a cell was placed and noted, it is known again which places are taken.
proof fn lemma_covered(before: Placement, after: Placement, cell: TableCell)
    requires
        before.wf(),
        after.row == before.row,
        cell.row == before.row,
        1 <= cell.rowspan,
        after.cells@ == before.cells@.push(cell),
        free(
            before.cells@,
            before.row as int,
            cell.rowspan as int,
            cell.col_start as int,
            cell.colspan as int,
        ),
        after.bottoms@.len() <= u16::MAX,
        cell.col_start + cell.colspan <= after.bottoms@.len(),
        before.bottoms@.len() <= after.bottoms@.len(),
        forall|c: int|
            0 <= c < after.bottoms@.len() ==> #[trigger] after.bottoms@[c] == if cell.col_start
                <= c < cell.col_start + cell.colspan {
                bottom(cell.row as int, cell.rowspan as int) as u32
            } else if c < before.bottoms@.len() {
                before.bottoms@[c]
            } else {
                0
            },
    ensures
        after.wf(),
{
    let old_cells = before.cells@;
    let cells = after.cells@;
    let row = before.row as int;
    assert forall|k: int| 0 <= k < cells.len() implies (#[trigger] cells[k]).row <= row by {
        if k < old_cells.len() {
            assert(cells[k] == old_cells[k]);
        }
    }
    assert forall|r: int, c: int| row <= r && 0 <= c implies (#[trigger] occupied(cells, r, c)
        <==> c < after.bottoms@.len() && r < after.bottoms@[c]) by {
        lemma_occupied_push(old_cells, cell, r, c);
        assert(occupied(old_cells, r, c) <==> c < before.bottoms@.len() && r
            < before.bottoms@[c]);
        if cell.col_start <= c < cell.col_start + cell.colspan {
            assert(!occupied(old_cells, row, c));
            assert(occupied(old_cells, row, c) <==> c < before.bottoms@.len() && row
                < before.bottoms@[c]);
        }
    }
}

/// The places that are taken after one more cell.
pub proof fn lemma_occupied_push(cells: Seq<TableCell>, cell: TableCell, row: int, c: int)
    ensures
        occupied(cells.push(cell), row, c) <==> occupied(cells, row, c) || holds(cell, row, c),
{
    let more = cells.push(cell);
    if occupied(cells, row, c) {
        let k = choose|k: int| 0 <= k < cells.len() && holds(#[trigger] cells[k], row, c);
        assert(holds(more[k], row, c));
    }
    if holds(cell, row, c) {
        assert(holds(more[cells.len() as int], row, c));
    }
    if occupied(more, row, c) {
        let k = choose|k: int| 0 <= k < more.len() && holds(#[trigger] more[k], row, c);
        if k < cells.len() {
            assert(holds(cells[k], row, c));
        }
    }
}

}
