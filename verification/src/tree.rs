//! A table as a tree of cells, which a grid layout walks.

use std::ops::Range;

use vstd::prelude::*;

use crate::binary32::Binary32;
use crate::columns;
use crate::columns::{AvailableSpace, ColumnSizes, LayoutInput};
use crate::context::{TableContext, TableContextView, TableStyle, TableStyleView};
use crate::placement::{CellStyle, TableCell, Track};

verus! {

/// `taffy::NodeId::from` at `usize`, with the identifier read back as the 64-bit
/// integer that it wraps: the index itself.
#[verifier::external_body]
fn child_id(index: usize) -> (id: u64)
    ensures
        id == index,
{
    u64::from(taffy::NodeId::from(index))
}

/// `usize::from` at `taffy::NodeId`, where the identifier is given as the 64-bit
/// integer that it wraps: that integer, where it fits an index.
#[verifier::external_body]
fn child_index(id: u64) -> (index: usize)
    requires
        id <= usize::MAX,
    ensures
        index == id,
{
    usize::from(taffy::NodeId::from(id))
}

/// The children of a table that are yet to come.
#[derive(Debug)]
pub struct RangeIter(Range<usize>);

impl View for RangeIter {
    type V = Seq<u64>;

    /// The children that are yet to come.
    closed spec fn view(&self) -> Seq<u64> {
        Seq::new(
            if self.0.start < self.0.end {
                (self.0.end - self.0.start) as nat
            } else {
                0
            },
            |k: int| (self.0.start + k) as u64,
        )
    }
}

impl RangeIter {
    /// The next child.
    pub fn next(&mut self) -> (r: Option<u64>)
        ensures
            match r {
                Some(id) => old(self)@.len() > 0 && id == old(self)@[0] && final(self)@
                    == old(self)@.drop_first(),
                None => old(self)@.len() == 0 && final(self)@ == old(self)@,
            },
    {
        if self.0.start < self.0.end {
            let index: usize = self.0.start;
            self.0.start = index + 1;
            assert(self@ =~= old(self)@.drop_first());
            Some(child_id(index))
        } else {
            None
        }
    }
}

/// What a layout computes.
#[derive(Clone, Copy, Debug, PartialEq, Eq, Structural)]
pub enum RunMode {
    /// Sizes and positions.
    PerformLayout,
    /// The size alone.
    ComputeSize,
}

/// Whether a node's own sizes count in its layout.
#[derive(Clone, Copy, Debug, PartialEq, Eq, Structural)]
pub enum SizingMode {
    /// Only the content counts.
    ContentSize,
    /// The node's own sizes count too.
    InherentSize,
}

/// The axis whose size a layout is asked for.
#[derive(Clone, Copy, Debug, PartialEq, Eq, Structural)]
pub enum RequestedAxis {
    Horizontal,
    Vertical,
    Both,
}

/// A layout of a node that is asked for to measure it. The answer is the width of the
/// node in that layout.
#[derive(Clone, Copy, Debug, PartialEq, Eq, Structural)]
pub struct Measurement {
    pub node_id: usize,
    pub run_mode: RunMode,
    pub sizing_mode: SizingMode,
    pub axis: RequestedAxis,
    pub known_width: Option<Binary32>,
    pub known_height: Option<Binary32>,
    pub parent_width: Option<Binary32>,
    pub parent_height: Option<Binary32>,
    pub available_width: AvailableSpace,
    pub available_height: AvailableSpace,
    /// Whether the top margin may collapse with those around the node.
    pub collapsible_top: bool,
    /// Whether the bottom margin may collapse with those around the node.
    pub collapsible_bottom: bool,
}

/// A layout that measures how wide a cell's content is. The parent's width is unknown,
/// so that a cell's percentage does not count, while an absolute width does.
pub open spec fn measurement(cell: TableCell, width: AvailableSpace) -> Measurement {
    Measurement {
        node_id: cell.node_id,
        run_mode: RunMode::ComputeSize,
        sizing_mode: SizingMode::InherentSize,
        axis: RequestedAxis::Horizontal,
        known_width: None,
        known_height: None,
        parent_width: None,
        parent_height: None,
        available_width: width,
        available_height: AvailableSpace::MaxContent,
        collapsible_top: false,
        collapsible_bottom: false,
    }
}

/// A copy of a list.
fn copy(tracks: &Vec<Track>) -> (r: Vec<Track>)
    ensures
        r@ == tracks@,
{
    let mut r: Vec<Track> = Vec::new();
    let mut i: usize = 0;
    while i < tracks.len()
        invariant
            i <= tracks.len(),
            r@ == tracks@.take(i as int),
        decreases tracks.len() - i,
    {
        r.push(tracks[i]);
        i = i + 1;
        assert(r@ =~= tracks@.take(i as int));
    }
    assert(r@ =~= tracks@);
    r
}

/// A table under layout.
#[derive(Debug)]
pub struct TableTreeWrapper {
    pub ctx: TableContext,
    /// The grid of the current layout. Where it is set, its columns have fixed widths,
    /// and it takes the place of the one in `ctx`.
    pub style_override: Option<TableStyle>,
}

/// The grid with columns of the given widths.
pub open spec fn with_widths(style: TableStyleView, widths: Seq<Binary32>) -> TableStyleView {
    TableStyleView {
        columns: Seq::new(widths.len(), |i: int| Track::Length(widths[i])),
        ..style
    }
}

/// Whether a table's columns are sized, and its cells measured for that.
pub open spec fn sizes_columns(ctx: TableContext) -> bool {
    ctx@.style.columns.len() > 0 && columns::needs_sizing(ctx@.cells)
}

/// The widths of a table's columns.
pub open spec fn table_widths(
    ctx: TableContext,
    cell_min: Seq<Binary32>,
    cell_max: Seq<Binary32>,
    inputs: LayoutInput,
) -> Seq<Binary32> {
    let n = ctx@.style.columns.len() as int;
    columns::widths(
        columns::column_sizes(columns::facts(ctx@.cells, cell_min, cell_max), n),
        inputs.offer(ctx@.style.width, n),
    )
}

impl TableTreeWrapper {
    /// The grid of the current layout, where one is set.
    pub open spec fn override_view(self) -> Option<TableStyleView> {
        match self.style_override {
            Some(style) => Some(style@),
            None => None,
        }
    }

    /// The grid that the table is laid out with.
    pub open spec fn grid(self) -> TableStyleView {
        match self.style_override {
            Some(style) => style@,
            None => self.ctx@.style,
        }
    }

    /// A table before its layout.
    pub fn new(ctx: TableContext) -> (r: TableTreeWrapper)
        ensures
            r.ctx == ctx,
            r.override_view() is None,
    {
        TableTreeWrapper { ctx, style_override: None }
    }

    /// Whether the columns are sized, so that the cells have to be measured first.
    pub fn needs_measuring(&self) -> (r: bool)
        ensures
            r == sizes_columns(self.ctx),
    {
        self.ctx.style.columns.len() > 0 && columns::should_size(self.ctx.cells.as_slice())
    }

    /// The layout that measures a cell: its least width in the space
    /// [`AvailableSpace::MinContent`], and its width without wrapping in
    /// [`AvailableSpace::MaxContent`].
    pub fn measure_cell(&self, idx: usize, width: AvailableSpace) -> (r: Measurement)
        requires
            idx < self.ctx@.cells.len(),
        ensures
            r == measurement(self.ctx@.cells[idx as int], width),
    {
        Measurement {
            node_id: self.ctx.cells[idx].node_id,
            run_mode: RunMode::ComputeSize,
            sizing_mode: SizingMode::InherentSize,
            axis: RequestedAxis::Horizontal,
            known_width: None,
            known_height: None,
            parent_width: None,
            parent_height: None,
            available_width: width,
            available_height: AvailableSpace::MaxContent,
            collapsible_top: false,
            collapsible_bottom: false,
        }
    }

    /// Sizes the columns by the least widths and the widths without wrapping that the
    /// cells were measured to have, and sets a grid in which they have fixed widths. Tables in
    /// which no cell has a percentage or spans columns are left to the grid.
    pub fn prepare_columns(
        &mut self,
        cell_min: &[Binary32],
        cell_max: &[Binary32],
        inputs: LayoutInput,
    )
        requires
            sizes_columns(old(self).ctx) ==> cell_min.len() == cell_max.len()
                == old(self).ctx.cells.len(),
        ensures
            final(self).ctx == old(self).ctx,
            final(self).override_view() == if sizes_columns(old(self).ctx) {
                Some(
                    with_widths(
                        old(self).ctx@.style,
                        table_widths(old(self).ctx, cell_min@, cell_max@, inputs),
                    ),
                )
            } else {
                old(self).override_view()
            },
    {
        if !self.needs_measuring() {
            return;
        }
        let sizes: ColumnSizes = columns::aggregate(
            self.ctx.cells.as_slice(),
            cell_min,
            cell_max,
            self.ctx.style.columns.len(),
        );
        let widths: Vec<Binary32> = columns::column_widths(&sizes, self.ctx.style.width, inputs);
        let mut tracks: Vec<Track> = Vec::new();
        let mut i: usize = 0;
        let ghost goal = with_widths(self.ctx@.style, widths@).columns;
        while i < widths.len()
            invariant
                i <= widths.len(),
                goal == Seq::new(widths@.len(), |k: int| Track::Length(widths@[k])),
                tracks@ == goal.take(i as int),
            decreases widths.len() - i,
        {
            tracks.push(Track::Length(widths[i]));
            i = i + 1;
            assert(tracks@ =~= goal.take(i as int));
        }
        assert(tracks@ =~= goal);
        self.style_override = Some(
            TableStyle {
                item_is_table: self.ctx.style.item_is_table,
                auto_flow: self.ctx.style.auto_flow,
                auto_columns: copy(&self.ctx.style.auto_columns),
                auto_rows: copy(&self.ctx.style.auto_rows),
                width: self.ctx.style.width,
                columns: tracks,
                row_count: self.ctx.style.row_count,
                gap_width: self.ctx.style.gap_width,
                gap_height: self.ctx.style.gap_height,
                frame: self.ctx.style.frame,
            },
        );
    }

    /// The children of the table: one for each cell.
    pub fn child_ids(&self) -> (r: RangeIter)
        ensures
            r@ == Seq::new(self.ctx@.cells.len(), |k: int| k as u64),
    {
        let r: RangeIter = RangeIter(0..self.ctx.cells.len());
        assert(r@ =~= Seq::new(self.ctx@.cells.len(), |k: int| k as u64));
        r
    }

    /// The number of children.
    pub fn child_count(&self) -> (n: usize)
        ensures
            n == self.ctx@.cells.len(),
    {
        self.ctx.cells.len()
    }

    /// The child at an index.
    pub fn get_child_id(&self, index: usize) -> (id: u64)
        ensures
            id == index,
    {
        child_id(index)
    }

    /// The grid that the table is laid out with.
    pub fn get_core_container_style(&self) -> (style: &TableStyle)
        ensures
            style@ == self.grid(),
    {
        match &self.style_override {
            Some(style) => style,
            None => &self.ctx.style,
        }
    }

    /// The grid that the table is laid out with.
    pub fn get_grid_container_style(&self) -> (style: &TableStyle)
        ensures
            style@ == self.grid(),
    {
        self.get_core_container_style()
    }

    /// How the grid lays out a child, whatever grid the current layout has set.
    pub fn get_grid_child_style(&self, child: u64) -> (style: &CellStyle)
        requires
            child < self.ctx@.cells.len(),
        ensures
            *style == self.ctx@.cells[child as int].style,
    {
        assert(child < self.ctx.cells.len());
        &self.ctx.cells[child_index(child)].style
    }

    /// The node of the cell that a child is, whose layout is computed and set.
    pub fn child_node(&self, child: u64) -> (node_id: usize)
        requires
            child < self.ctx@.cells.len(),
        ensures
            node_id == self.ctx@.cells[child as int].node_id,
    {
        assert(child < self.ctx.cells.len());
        self.ctx.cells[child_index(child)].node_id
    }

    /// Keeps what was found out about the grid.
    pub fn set_detailed_grid_info(&mut self, detailed_grid_info: taffy::DetailedGridInfo)
        ensures
            final(self).ctx@ == (TableContextView {
                computed_grid_info: Some(detailed_grid_info),
                ..old(self).ctx@
            }),
            final(self).override_view() == old(self).override_view(),
    {
        self.ctx.computed_grid_info = Some(detailed_grid_info);
    }
}

}
