//! Building the grid of a table from its document nodes.

use vstd::prelude::*;

use crate::binary32::Binary32;
use crate::document;
use crate::document::{BorderCollapse, Document, InlineSize, NodeStyle, NodeView, TableLayout};
use crate::number::Number;
use crate::placement;
use crate::placement::{CellBorder, Placement, PlacementView, TableCell, TableRow, Track};
use crate::walk;
use crate::walk::Item;

verus! {

/// What taffy finds out about a grid while it lays it out: where the tracks are, and
/// which of them each item takes up. The library only keeps it.
#[verifier::external_type_specification]
#[verifier::external_body]
pub struct ExDetailedGridInfo(taffy::DetailedGridInfo);

/// The order in which a grid places items that are not placed by their style.
#[derive(Clone, Copy, Debug, PartialEq, Eq, Structural)]
pub enum AutoFlow {
    Row,
    Column,
    /// Row by row. Each item takes the first columns of its row that are free.
    RowDense,
    ColumnDense,
}

/// A distance inside a table.
#[derive(Clone, Copy, Debug, PartialEq, Eq, Structural)]
pub enum Spacing {
    Pixels(Binary32),
    AppUnits(i32),
}

/// The borders of a table whose cells share theirs with it.
#[derive(Clone, Copy, Debug, PartialEq, Eq, Structural)]
pub struct Frame {
    /// The left and the right border.
    pub sides: Spacing,
    /// The top and the bottom border.
    pub ends: Spacing,
}

/// The grid that a table is laid out with.
#[derive(Clone, Debug)]
pub struct TableStyle {
    /// Whether the box is a table for the layout around it.
    pub item_is_table: bool,
    pub auto_flow: AutoFlow,
    /// The sizes of columns beyond those in `columns`.
    pub auto_columns: Vec<Track>,
    /// The sizes of rows beyond the first `row_count`.
    pub auto_rows: Vec<Track>,
    /// The table's authored width.
    pub width: InlineSize,
    pub columns: Vec<Track>,
    /// The number of rows, which are all sized automatically.
    pub row_count: u16,
    /// The distance between columns.
    pub gap_width: Spacing,
    /// The distance between rows.
    pub gap_height: Spacing,
    /// The borders that take the place of the table's own.
    pub frame: Option<Frame>,
}

/// A table, ready for layout.
#[derive(Clone, Debug)]
pub struct TableContext {
    pub style: TableStyle,
    pub cells: Vec<TableCell>,
    pub rows: Vec<TableRow>,
    /// What is known of the grid from its last layout.
    pub computed_grid_info: Option<taffy::DetailedGridInfo>,
    pub border_style: Option<CellBorder>,
    pub border_collapse: BorderCollapse,
}

/// All there is to a [`TableStyle`].
#[verifier::ext_equal]
pub struct TableStyleView {
    pub item_is_table: bool,
    pub auto_flow: AutoFlow,
    pub auto_columns: Seq<Track>,
    pub auto_rows: Seq<Track>,
    pub width: InlineSize,
    pub columns: Seq<Track>,
    pub row_count: int,
    pub gap_width: Spacing,
    pub gap_height: Spacing,
    pub frame: Option<Frame>,
}

/// All there is to a [`TableContext`].
#[verifier::ext_equal]
pub struct TableContextView {
    pub style: TableStyleView,
    pub cells: Seq<TableCell>,
    pub rows: Seq<TableRow>,
    pub computed_grid_info: Option<taffy::DetailedGridInfo>,
    pub border_style: Option<CellBorder>,
    pub border_collapse: BorderCollapse,
}

impl View for TableStyle {
    type V = TableStyleView;

    open spec fn view(&self) -> TableStyleView {
        TableStyleView {
            item_is_table: self.item_is_table,
            auto_flow: self.auto_flow,
            auto_columns: self.auto_columns@,
            auto_rows: self.auto_rows@,
            width: self.width,
            columns: self.columns@,
            row_count: self.row_count as int,
            gap_width: self.gap_width,
            gap_height: self.gap_height,
            frame: self.frame,
        }
    }
}

impl View for TableContext {
    type V = TableContextView;

    open spec fn view(&self) -> TableContextView {
        TableContextView {
            style: self.style@,
            cells: self.cells@,
            rows: self.rows@,
            computed_grid_info: self.computed_grid_info,
            border_style: self.border_style,
            border_collapse: self.border_collapse,
        }
    }
}

/// The nodes among which the rows and cells of the table `root` are looked for.
pub open spec fn inside(nodes: Seq<NodeView>, root: int) -> Seq<NodeView> {
    document::childless(nodes, root)
}

/// The rows and cells of the table `root`.
pub open spec fn table_items(nodes: Seq<NodeView>, root: int) -> Seq<Item> {
    walk::items_of(inside(nodes, root), nodes[root].children)
}

/// The nodes whose construction damage is repaired when the table `root` is built.
pub open spec fn table_repairs(nodes: Seq<NodeView>, root: int) -> Set<int> {
    walk::repairs_of(inside(nodes, root), nodes[root].children)
}

/// Whether the layout of a table is fixed.
pub open spec fn fixed(style: NodeStyle) -> bool {
    style.table_layout == TableLayout::Fixed
}

/// Whether the table `root` can be built.
pub open spec fn table_fits(nodes: Seq<NodeView>, root: int) -> bool {
    &&& 0 <= root < nodes.len()
    &&& nodes[root].style is Some
    &&& placement::fits(
        placement::nothing(),
        inside(nodes, root),
        fixed(nodes[root].style.unwrap()),
        nodes[root].style.unwrap().border_collapse,
        table_items(nodes, root),
    )
}

/// The placement of all rows and cells of the table `root`.
pub open spec fn table_placement(nodes: Seq<NodeView>, root: int) -> PlacementView {
    placement::placed(
        placement::nothing(),
        inside(nodes, root),
        fixed(nodes[root].style.unwrap()),
        nodes[root].style.unwrap().border_collapse,
        table_items(nodes, root),
    )
}

/// The first `n` of the given columns, with automatic ones where they run out.
pub open spec fn resized(columns: Seq<Track>, n: int) -> Seq<Track> {
    Seq::new(
        n as nat,
        |i: int|
            if i < columns.len() {
                columns[i]
            } else {
                Track::Auto
            },
    )
}

/// The larger of two widths in app units.
pub open spec fn wider(a: i32, b: i32) -> i32 {
    if a < b {
        b
    } else {
        a
    }
}

/// The distances between columns and between rows: the table's spacing or, where
/// borders collapse, the wider borders of the first cell.
pub open spec fn gaps(style: NodeStyle, border: Option<CellBorder>) -> (Spacing, Spacing) {
    match style.border_collapse {
        BorderCollapse::Separate => (
            Spacing::Pixels(style.spacing_width),
            Spacing::Pixels(style.spacing_height),
        ),
        BorderCollapse::Collapse => match border {
            Some(border) => (
                Spacing::AppUnits(wider(border.widths.left, border.widths.right)),
                Spacing::AppUnits(wider(border.widths.top, border.widths.bottom)),
            ),
            None => (Spacing::Pixels(Binary32::zero()), Spacing::Pixels(Binary32::zero())),
        },
    }
}

/// The grid of a table. It has as many columns as the cells of its last row span
/// together. Cells are placed densely, row by row, so that they skip the columns that
/// cells of earlier rows span into. All further columns and rows are automatic.
pub open spec fn table_style(style: NodeStyle, p: PlacementView) -> TableStyleView {
    let (width, height) = gaps(style, p.first_cell_border);
    TableStyleView {
        item_is_table: true,
        auto_flow: AutoFlow::RowDense,
        auto_columns: Seq::empty(),
        auto_rows: Seq::empty(),
        width: style.width,
        columns: resized(p.columns, p.col),
        row_count: p.row,
        gap_width: width,
        gap_height: height,
        frame: match style.border_collapse {
            BorderCollapse::Collapse => Some(Frame { sides: width, ends: height }),
            BorderCollapse::Separate => None,
        },
    }
}

/// The table that the node `root` becomes.
pub open spec fn table_context(nodes: Seq<NodeView>, root: int) -> TableContextView {
    let p = table_placement(nodes, root);
    let style = nodes[root].style.unwrap();
    TableContextView {
        style: table_style(style, p),
        cells: p.cells,
        rows: p.rows,
        computed_grid_info: None,
        border_style: p.first_cell_border,
        border_collapse: style.border_collapse,
    }
}

/// The nodes of the given cells.
pub open spec fn cell_nodes(cells: Seq<TableCell>) -> Seq<usize> {
    Seq::new(cells.len(), |i: int| cells[i].node_id)
}

/// Places the rows and cells that the node `node_id` stands for, and repairs the
/// construction damage of the nodes on the way.
pub fn collect_table_cells(
    doc: &mut Document,
    node_id: usize,
    is_fixed: bool,
    border_collapse: BorderCollapse,
    table: &mut Placement,
)
    requires
        node_id < old(doc).structure().len(),
        document::connected(old(doc).structure()),
        old(table).wf(),
        placement::fits(
            old(table)@,
            old(doc).structure(),
            is_fixed,
            border_collapse,
            walk::items(old(doc).structure(), node_id),
        ),
    ensures
        final(doc).structure() == old(doc).structure(),
        final(doc).damage() == walk::after_repairs(
            old(doc).damage(),
            walk::repairs(old(doc).structure(), node_id),
        ),
        final(table).wf(),
        final(table)@ == placement::placed(
            old(table)@,
            old(doc).structure(),
            is_fixed,
            border_collapse,
            walk::items(old(doc).structure(), node_id),
        ),
{
    let ghost nodes = doc.structure();
    let ghost start = table@;
    let mut found: Vec<Item> = Vec::new();
    walk::collect_items(doc, node_id, &mut found);
    assert(found@ =~= walk::items(nodes, node_id));
    let mut k: usize = 0;
    assert(found@.take(0) =~= Seq::empty());
    while k < found.len()
        invariant
            k <= found.len(),
            table.wf(),
            doc.structure() == nodes,
            placement::fits(start, nodes, is_fixed, border_collapse, found@),
            table@ == placement::placed(
                start,
                nodes,
                is_fixed,
                border_collapse,
                found@.take(k as int),
            ),
        decreases found.len() - k,
    {
        assert(found@.take(k + 1).drop_last() =~= found@.take(k as int));
        proof {
            placement::lemma_fits_prefix(
                start,
                nodes,
                is_fixed,
                border_collapse,
                found@,
                k + 1,
            );
        }
        table.place(doc, is_fixed, border_collapse, found[k]);
        k = k + 1;
    }
    assert(found@.take(found.len() as int) =~= found@);
}

/// Builds the table `table_root_node_id`, and repairs the construction damage of its
/// descendants. Gives the table and the nodes that are laid out in it.
pub fn build_table_context(doc: &mut Document, table_root_node_id: usize) -> (r: (
    TableContext,
    Vec<usize>,
))
    requires
        document::connected(old(doc).structure()),
        table_fits(old(doc).structure(), table_root_node_id as int),
    ensures
        final(doc).structure() == old(doc).structure(),
        final(doc).damage() == walk::after_repairs(
            old(doc).damage(),
            table_repairs(old(doc).structure(), table_root_node_id as int),
        ),
        r.0@ == table_context(old(doc).structure(), table_root_node_id as int),
        r.1@ == cell_nodes(r.0@.cells),
{
    let ghost nodes = doc.structure();
    let ghost before = doc.damage();
    let ghost root = table_root_node_id as int;
    let ghost rest = inside(nodes, root);
    let ghost all = table_items(nodes, root);
    let style: NodeStyle = doc.nodes[table_root_node_id].style.unwrap();
    let is_fixed: bool = match style.table_layout {
        TableLayout::Fixed => true,
        TableLayout::Auto => false,
    };
    let border_collapse: BorderCollapse = style.border_collapse;
    let children: Vec<usize> = doc.take_children(table_root_node_id);
    let mut table: Placement = Placement::new();
    let mut k: usize = 0;
    assert(document::connected(rest));
    assert(children@.take(0) =~= Seq::empty());
    assert(doc.damage() =~= walk::after_repairs(before, Set::empty()));
    while k < children.len()
        invariant
            k <= children.len(),
            table.wf(),
            0 <= root < nodes.len(),
            children@ == nodes[root].children,
            document::connected(nodes),
            document::connected(rest),
            rest == inside(nodes, root),
            doc.structure() == rest,
            placement::fits(
                placement::nothing(),
                rest,
                is_fixed,
                border_collapse,
                walk::items_of(rest, children@),
            ),
            doc.damage() == walk::after_repairs(
                before,
                walk::repairs_of(rest, children@.take(k as int)),
            ),
            table@ == placement::placed(
                placement::nothing(),
                rest,
                is_fixed,
                border_collapse,
                walk::items_of(rest, children@.take(k as int)),
            ),
        decreases children.len() - k,
    {
        let child: usize = children[k];
        assert(nodes[root].children[k as int] == child);
        let ghost seen = children@.take(k as int);
        let ghost now = children@.take(k + 1);
        assert(now.drop_last() =~= seen);
        proof {
            lemma_items_of_prefix(rest, children@, k + 1);
            placement::lemma_fits_prefix(
                placement::nothing(),
                rest,
                is_fixed,
                border_collapse,
                walk::items_of(rest, children@),
                walk::items_of(rest, now).len() as int,
            );
            assert(walk::items_of(rest, children@).take(walk::items_of(rest, now).len() as int)
                =~= walk::items_of(rest, now));
            placement::lemma_placed_concat(
                placement::nothing(),
                rest,
                is_fixed,
                border_collapse,
                walk::items_of(rest, seen),
                walk::items(rest, child),
            );
        }
        collect_table_cells(doc, child, is_fixed, border_collapse, &mut table);
        k = k + 1;
        assert(doc.damage() =~= walk::after_repairs(before, walk::repairs_of(rest, now)));
    }
    assert(children@.take(children.len() as int) =~= children@);
    doc.put_children(table_root_node_id, children);
    assert(doc.structure() =~= nodes);
    finish(style, table)
}

/// What a complete placement makes of a table with the given style.
fn finish(style: NodeStyle, table: Placement) -> (r: (TableContext, Vec<usize>))
    ensures
        r.0@ == (TableContextView {
            style: table_style(style, table@),
            cells: table@.cells,
            rows: table@.rows,
            computed_grid_info: None,
            border_style: table@.first_cell_border,
            border_collapse: style.border_collapse,
        }),
        r.1@ == cell_nodes(table@.cells),
{
    let (gap_width, gap_height): (Spacing, Spacing) = gaps_of(style, table.first_cell_border);
    let columns: Vec<Track> = resized_to(&table.columns, table.col);
    let mut nodes: Vec<usize> = Vec::new();
    let mut k: usize = 0;
    while k < table.cells.len()
        invariant
            k <= table.cells.len(),
            nodes@ == cell_nodes(table@.cells).take(k as int),
        decreases table.cells.len() - k,
    {
        nodes.push(table.cells[k].node_id);
        k = k + 1;
        assert(nodes@ =~= cell_nodes(table@.cells).take(k as int));
    }
    assert(cell_nodes(table@.cells).take(k as int) =~= cell_nodes(table@.cells));
    let context: TableContext = TableContext {
        style: TableStyle {
            item_is_table: true,
            auto_flow: AutoFlow::RowDense,
            auto_columns: Vec::new(),
            auto_rows: Vec::new(),
            width: style.width,
            columns,
            row_count: table.row,
            gap_width,
            gap_height,
            frame: match style.border_collapse {
                BorderCollapse::Collapse => Some(Frame { sides: gap_width, ends: gap_height }),
                BorderCollapse::Separate => None,
            },
        },
        cells: table.cells,
        rows: table.rows,
        computed_grid_info: None,
        border_style: table.first_cell_border,
        border_collapse: style.border_collapse,
    };
    assert(context.style@ =~= table_style(style, table@));
    (context, nodes)
}

fn gaps_of(style: NodeStyle, border: Option<CellBorder>) -> (r: (Spacing, Spacing))
    ensures
        r == gaps(style, border),
{
    match style.border_collapse {
        BorderCollapse::Separate => (
            Spacing::Pixels(style.spacing_width),
            Spacing::Pixels(style.spacing_height),
        ),
        BorderCollapse::Collapse => match border {
            Some(border) => {
                let widths = border.widths;
                let x: i32 = if widths.left < widths.right {
                    widths.right
                } else {
                    widths.left
                };
                let y: i32 = if widths.top < widths.bottom {
                    widths.bottom
                } else {
                    widths.top
                };
                (Spacing::AppUnits(x), Spacing::AppUnits(y))
            },
            None => (Spacing::Pixels(Binary32::nil()), Spacing::Pixels(Binary32::nil())),
        },
    }
}

fn resized_to(columns: &Vec<Track>, n: u16) -> (r: Vec<Track>)
    ensures
        r@ == resized(columns@, n as int),
{
    let mut r: Vec<Track> = Vec::new();
    let mut i: usize = 0;
    while i < n as usize
        invariant
            i <= n,
            r@ == resized(columns@, n as int).take(i as int),
        decreases n - i,
    {
        if i < columns.len() {
            r.push(columns[i]);
        } else {
            r.push(Track::Auto);
        }
        i = i + 1;
        assert(r@ =~= resized(columns@, n as int).take(i as int));
    }
    assert(r@ =~= resized(columns@, n as int));
    r
}

/// The rows and cells of the first nodes come before those of the others.
proof fn lemma_items_of_prefix(nodes: Seq<NodeView>, ids: Seq<usize>, k: int)
    requires
        0 <= k <= ids.len(),
    ensures
        walk::items_of(nodes, ids.take(k)).is_prefix_of(walk::items_of(nodes, ids)),
    decreases ids.len(),
{
    if k == ids.len() {
        assert(ids.take(k) =~= ids);
    } else {
        lemma_items_of_prefix(nodes, ids.drop_last(), k);
        assert(ids.drop_last().take(k) =~= ids.take(k));
    }
}

/// Whether the table `table_root_node_id` can be built. Looking repairs the same
/// construction damage as building does.
pub fn can_build(doc: &mut Document, table_root_node_id: usize) -> (r: bool)
    requires
        document::connected(old(doc).structure()),
        table_root_node_id < old(doc).structure().len(),
    ensures
        r == table_fits(old(doc).structure(), table_root_node_id as int),
        final(doc).structure() == old(doc).structure(),
        final(doc).damage() == if old(doc).structure()[table_root_node_id as int].style is Some {
            walk::after_repairs(
                old(doc).damage(),
                table_repairs(old(doc).structure(), table_root_node_id as int),
            )
        } else {
            old(doc).damage()
        },
{
    let ghost nodes = doc.structure();
    let ghost before = doc.damage();
    let ghost root = table_root_node_id as int;
    let ghost rest = inside(nodes, root);
    let style: NodeStyle = match doc.nodes[table_root_node_id].style {
        Some(style) => style,
        None => return false,
    };
    let is_fixed: bool = style.table_layout == TableLayout::Fixed;
    let children: Vec<usize> = doc.take_children(table_root_node_id);
    let mut found: Vec<Item> = Vec::new();
    let mut k: usize = 0;
    assert(document::connected(rest));
    assert(children@.take(0) =~= Seq::empty());
    assert(doc.damage() =~= walk::after_repairs(before, Set::empty()));
    while k < children.len()
        invariant
            k <= children.len(),
            0 <= root < nodes.len(),
            children@ == nodes[root].children,
            document::connected(nodes),
            document::connected(rest),
            rest == inside(nodes, root),
            doc.structure() == rest,
            doc.damage() == walk::after_repairs(
                before,
                walk::repairs_of(rest, children@.take(k as int)),
            ),
            found@ == walk::items_of(rest, children@.take(k as int)),
        decreases children.len() - k,
    {
        let child: usize = children[k];
        assert(nodes[root].children[k as int] == child);
        let ghost now = children@.take(k + 1);
        assert(now.drop_last() =~= children@.take(k as int));
        walk::collect_items(doc, child, &mut found);
        k = k + 1;
        assert(doc.damage() =~= walk::after_repairs(before, walk::repairs_of(rest, now)));
    }
    assert(children@.take(children.len() as int) =~= children@);
    let r: bool = Placement::can_place_all(
        doc,
        is_fixed,
        style.border_collapse,
        found.as_slice(),
    );
    doc.put_children(table_root_node_id, children);
    assert(doc.structure() =~= nodes);
    r
}

}
