//! Building tables from documents.

use table_layout::binary32::Binary32;
use table_layout::context::{
    build_table_context, can_build, collect_table_cells, AutoFlow, Frame, Spacing, TableContext,
};
use table_layout::document::{
    BorderCollapse, BorderWidths, Damage, DisplayInside, DisplayOutside, Document, InlineSize,
    Node, NodeStyle, TableLayout,
};
use table_layout::placement::{CellStyle, GridLine, GridPlace, Placement, TableCell, Track};
use table_layout::walk::{collect_items, Item};

fn number(x: f32) -> Binary32 {
    Binary32::from_bits(x.to_bits())
}

const DAMAGED: Damage = Damage {
    construct_box: true,
    construct_fc: true,
    construct_descendent: true,
    other: 5,
};

const REPAIRED: Damage = Damage {
    construct_box: false,
    construct_fc: false,
    construct_descendent: false,
    other: 5,
};

fn style(inside: DisplayInside) -> NodeStyle {
    NodeStyle {
        outside: DisplayOutside::InternalTable,
        inside,
        width: InlineSize::Auto,
        padding_left: number(1.0),
        padding_right: number(2.0),
        border: BorderWidths {
            top: 60,
            right: 120,
            bottom: 180,
            left: 30,
        },
        table_layout: TableLayout::Auto,
        border_collapse: BorderCollapse::Separate,
        spacing_width: number(3.0),
        spacing_height: number(4.0),
    }
}

fn node(inside: DisplayInside, children: &[usize]) -> Node {
    Node {
        element: true,
        style: Some(style(inside)),
        colspan: None,
        rowspan: None,
        children: children.to_vec(),
        damage: DAMAGED,
    }
}

fn cell() -> Node {
    node(DisplayInside::TableCell, &[])
}

fn cell_over(colspan: &str, rowspan: &str) -> Node {
    let mut node = cell();
    node.colspan = Some(colspan.to_string());
    node.rowspan = Some(rowspan.to_string());
    node
}

fn text() -> Node {
    Node {
        element: false,
        style: None,
        colspan: None,
        rowspan: None,
        children: vec![],
        damage: DAMAGED,
    }
}

/// A table at node 0 with two rows of two cells each.
fn two_by_two() -> Document {
    Document {
        nodes: vec![
            node(DisplayInside::Table, &[1, 2]),
            node(DisplayInside::TableRow, &[3, 4]),
            node(DisplayInside::TableRow, &[5, 6]),
            cell(),
            cell(),
            cell(),
            cell(),
        ],
    }
}

fn set_width(doc: &mut Document, id: usize, width: InlineSize) {
    let mut style = doc.nodes[id].style.unwrap();
    style.width = width;
    doc.nodes[id].style = Some(style);
}

fn children(doc: &Document) -> Vec<Vec<usize>> {
    doc.nodes.iter().map(|node| node.children.clone()).collect()
}

fn line(cell: &TableCell) -> i16 {
    match cell.style.row.start {
        GridLine::Line(index) => index,
        GridLine::Auto => panic!("a cell without a row line"),
    }
}

fn places(ctx: &TableContext) -> Vec<(usize, i16, u16, u16, u16)> {
    ctx.cells
        .iter()
        .map(|c| (c.node_id, line(c), c.rowspan, c.col_start, c.colspan))
        .collect()
}

fn damaged(doc: &Document) -> Vec<usize> {
    (0..doc.nodes.len())
        .filter(|i| doc.nodes[*i].damage == DAMAGED)
        .collect()
}

#[test]
fn rows_and_cells_come_in_document_order() {
    let mut doc = two_by_two();
    let before = children(&doc);
    assert!(can_build(&mut doc, 0));
    let (ctx, nodes) = build_table_context(&mut doc, 0);
    assert_eq!(nodes, [3, 4, 5, 6]);
    assert_eq!(
        places(&ctx),
        [
            (3, 1, 1, 0, 1),
            (4, 1, 1, 1, 1),
            (5, 2, 1, 0, 1),
            (6, 2, 1, 1, 1)
        ]
    );
    let rows: Vec<usize> = ctx.rows.iter().map(|row| row.node_id).collect();
    assert_eq!(rows, [1, 2]);
    assert!(ctx.rows.iter().all(|row| row.height == number(0.0)));
    assert_eq!(ctx.style.row_count, 2);
    assert_eq!(ctx.style.columns, [Track::Auto, Track::Auto]);
    assert_eq!(children(&doc), before);
}

#[test]
fn spans_move_the_cells_after_them() {
    let mut doc = two_by_two();
    doc.nodes[3] = cell_over("2", "1");
    doc.nodes[5] = cell_over("4", "0");
    let (ctx, _) = build_table_context(&mut doc, 0);
    assert_eq!(
        places(&ctx),
        [
            (3, 1, 1, 0, 2),
            (4, 1, 1, 2, 1),
            (5, 2, 1, 0, 4),
            (6, 2, 1, 4, 1)
        ]
    );
    // The last row fills five columns.
    assert_eq!(ctx.style.columns, [Track::Auto; 5]);
}

#[test]
fn the_last_row_says_how_many_columns_there_are() {
    let mut doc = two_by_two();
    set_width(&mut doc, 3, InlineSize::Length(number(10.0)));
    doc.nodes[2].children = vec![5];
    let (ctx, nodes) = build_table_context(&mut doc, 0);
    assert_eq!(nodes, [3, 4, 5]);
    assert_eq!(ctx.style.columns, [Track::Length(number(13.0))]);
}

#[test]
fn the_first_row_says_how_wide_columns_are() {
    let mut doc = two_by_two();
    set_width(&mut doc, 3, InlineSize::Length(number(10.0)));
    set_width(&mut doc, 4, InlineSize::Percent(number(0.25)));
    set_width(&mut doc, 5, InlineSize::Length(number(99.0)));
    set_width(&mut doc, 0, InlineSize::Percent(number(0.5)));
    let (ctx, _) = build_table_context(&mut doc, 0);
    assert_eq!(
        ctx.style.columns,
        [Track::Length(number(13.0)), Track::Auto]
    );
    assert_eq!(ctx.style.width, InlineSize::Percent(number(0.5)));
    assert_eq!(ctx.cells[1].specified_width, InlineSize::Percent(number(0.25)));
    assert_eq!(ctx.cells[2].specified_width, InlineSize::Length(number(99.0)));
}

#[test]
fn a_fixed_layout_takes_percentages_from_the_first_row() {
    let mut doc = two_by_two();
    let mut root = doc.nodes[0].style.unwrap();
    root.table_layout = TableLayout::Fixed;
    doc.nodes[0].style = Some(root);
    set_width(&mut doc, 4, InlineSize::Percent(number(0.25)));
    let (ctx, _) = build_table_context(&mut doc, 0);
    assert_eq!(
        ctx.style.columns,
        [Track::Auto, Track::Percent(number(0.25))]
    );
}

#[test]
fn separate_borders_are_spaced() {
    let (ctx, _) = build_table_context(&mut two_by_two(), 0);
    assert_eq!(ctx.style.gap_width, Spacing::Pixels(number(3.0)));
    assert_eq!(ctx.style.gap_height, Spacing::Pixels(number(4.0)));
    assert_eq!(ctx.style.frame, None);
    assert_eq!(ctx.border_collapse, BorderCollapse::Separate);
    assert!(ctx.cells.iter().all(|cell| !cell.style.borderless));
    assert_eq!(ctx.border_style.unwrap().node_id, 3);
}

#[test]
fn collapsed_borders_are_as_wide_as_those_of_the_first_cell() {
    let mut doc = two_by_two();
    let mut root = doc.nodes[0].style.unwrap();
    root.border_collapse = BorderCollapse::Collapse;
    doc.nodes[0].style = Some(root);
    let mut other = doc.nodes[4].style.unwrap();
    other.border.left = 6000;
    doc.nodes[4].style = Some(other);
    let (ctx, _) = build_table_context(&mut doc, 0);
    assert_eq!(ctx.style.gap_width, Spacing::AppUnits(120));
    assert_eq!(ctx.style.gap_height, Spacing::AppUnits(180));
    assert_eq!(
        ctx.style.frame,
        Some(Frame {
            sides: Spacing::AppUnits(120),
            ends: Spacing::AppUnits(180)
        })
    );
    assert_eq!(ctx.border_collapse, BorderCollapse::Collapse);
    assert!(ctx.cells.iter().all(|cell| cell.style.borderless));
}

#[test]
fn collapsed_borders_of_an_empty_table_have_no_width() {
    let mut doc = Document {
        nodes: vec![node(DisplayInside::Table, &[])],
    };
    let mut root = doc.nodes[0].style.unwrap();
    root.border_collapse = BorderCollapse::Collapse;
    doc.nodes[0].style = Some(root);
    let (ctx, nodes) = build_table_context(&mut doc, 0);
    assert_eq!(ctx.style.gap_width, Spacing::Pixels(number(0.0)));
    assert_eq!(
        ctx.style.frame,
        Some(Frame {
            sides: Spacing::Pixels(number(0.0)),
            ends: Spacing::Pixels(number(0.0))
        })
    );
    assert!(nodes.is_empty());
    assert!(ctx.style.columns.is_empty());
    assert_eq!(ctx.border_style, None);
}

#[test]
fn groups_and_contents_count_as_their_children() {
    for inside in [
        DisplayInside::TableRowGroup,
        DisplayInside::TableHeaderGroup,
        DisplayInside::TableFooterGroup,
        DisplayInside::Contents,
    ] {
        let mut doc = Document {
            nodes: vec![
                node(DisplayInside::Table, &[1]),
                node(inside, &[2, 4]),
                node(DisplayInside::TableRow, &[3]),
                cell(),
                text(),
            ],
        };
        let (ctx, _) = build_table_context(&mut doc, 0);
        assert_eq!(places(&ctx), [(3, 1, 1, 0, 1)]);
        // The group keeps its damage, and its children lose theirs.
        assert_eq!(damaged(&doc), [0, 1, 3]);
        assert_eq!(doc.nodes[4].damage, REPAIRED);
    }
}

#[test]
fn other_descendants_are_left_out_and_repaired() {
    for inside in [
        DisplayInside::Flow,
        DisplayInside::FlowRoot,
        DisplayInside::Flex,
        DisplayInside::Grid,
        DisplayInside::TableColumnGroup,
        DisplayInside::TableColumn,
        DisplayInside::Table,
        DisplayInside::Absent,
    ] {
        let mut doc = Document {
            nodes: vec![
                node(DisplayInside::Table, &[1]),
                node(inside, &[2]),
                cell(),
            ],
        };
        let (ctx, nodes) = build_table_context(&mut doc, 0);
        assert!(nodes.is_empty());
        assert!(ctx.rows.is_empty());
        assert_eq!(damaged(&doc), [0, 2]);
    }
}

#[test]
fn hidden_rows_and_foreign_nodes_are_left_out() {
    let mut doc = two_by_two();
    let mut hidden = doc.nodes[1].style.unwrap();
    hidden.outside = DisplayOutside::Absent;
    doc.nodes[1].style = Some(hidden);
    doc.nodes[5].element = false;
    doc.nodes[6].style = None;
    let (ctx, nodes) = build_table_context(&mut doc, 0);
    assert!(nodes.is_empty());
    assert_eq!(ctx.rows.len(), 1);
    assert_eq!(ctx.rows[0].node_id, 2);
    // Rows and hidden nodes are repaired, and nothing else.
    assert_eq!(damaged(&doc), [0, 3, 4, 5, 6]);
}

#[test]
fn a_row_in_a_row_is_a_row_of_its_own() {
    let mut doc = Document {
        nodes: vec![
            node(DisplayInside::Table, &[1]),
            node(DisplayInside::TableRow, &[2, 3, 5]),
            cell(),
            node(DisplayInside::TableRow, &[4]),
            cell(),
            cell(),
        ],
    };
    let (ctx, _) = build_table_context(&mut doc, 0);
    assert_eq!(
        places(&ctx),
        [(2, 1, 1, 0, 1), (4, 2, 1, 0, 1), (5, 2, 1, 1, 1)]
    );
}

#[test]
fn cells_without_a_row_stand_on_line_zero() {
    let mut doc = Document {
        nodes: vec![node(DisplayInside::Table, &[1, 2]), cell(), cell()],
    };
    let (ctx, _) = build_table_context(&mut doc, 0);
    assert_eq!(places(&ctx), [(1, 0, 1, 0, 1), (2, 0, 1, 1, 1)]);
    assert_eq!(ctx.style.row_count, 0);
    assert_eq!(ctx.style.columns, [Track::Auto, Track::Auto]);
}

#[test]
fn a_node_that_is_its_own_descendant_ends_the_walk() {
    let mut doc = Document {
        nodes: vec![
            node(DisplayInside::Table, &[1]),
            node(DisplayInside::TableRow, &[2, 1]),
            cell(),
        ],
    };
    let mut found: Vec<Item> = Vec::new();
    collect_items(&mut doc, 1, &mut found);
    assert_eq!(found, [Item::Row(1), Item::Cell(2), Item::Row(1)]);
    assert_eq!(doc.nodes[1].children, [2, 1]);
}

#[test]
fn cells_are_added_to_what_is_placed() {
    let mut doc = two_by_two();
    let mut table = Placement::new();
    collect_table_cells(&mut doc, 1, false, BorderCollapse::Separate, &mut table);
    assert_eq!((table.row, table.col), (1, 2));
    collect_table_cells(&mut doc, 3, false, BorderCollapse::Collapse, &mut table);
    assert_eq!((table.row, table.col), (1, 3));
    assert!(table.cells[2].style.borderless);
    assert_eq!(table.columns.len(), 3);
    assert_eq!(table.first_cell_border.unwrap().node_id, 3);
    assert_eq!(
        table.first_cell_border.unwrap().widths,
        doc.nodes[3].style.unwrap().border
    );
}

#[test]
fn building_again_changes_nothing() {
    let mut doc = two_by_two();
    let (first, nodes) = build_table_context(&mut doc, 0);
    let after: Vec<Damage> = doc.nodes.iter().map(|node| node.damage).collect();
    let (second, again) = build_table_context(&mut doc, 0);
    assert_eq!(first.cells, second.cells);
    assert_eq!(first.rows, second.rows);
    assert_eq!(nodes, again);
    let later: Vec<Damage> = doc.nodes.iter().map(|node| node.damage).collect();
    assert_eq!(after, later);
    assert_eq!(damaged(&doc), [0, 3, 4, 5, 6]);
}

#[test]
fn a_table_without_a_style_cannot_be_built() {
    let mut doc = two_by_two();
    doc.nodes[0].style = None;
    assert!(!can_build(&mut doc, 0));
    assert_eq!(damaged(&doc).len(), 7);
}

#[test]
fn a_calculated_width_cannot_be_built_in_the_first_row() {
    let mut doc = two_by_two();
    set_width(&mut doc, 5, InlineSize::Calculated);
    assert!(can_build(&mut doc, 0));
    let (ctx, _) = build_table_context(&mut doc, 0);
    assert_eq!(ctx.cells[2].specified_width, InlineSize::Calculated);
    set_width(&mut doc, 4, InlineSize::Calculated);
    assert!(!can_build(&mut doc, 0));
}

#[test]
fn columns_are_counted_in_sixteen_bits() {
    let mut doc = two_by_two();
    doc.nodes[3] = cell_over("65534", "1");
    assert!(can_build(&mut doc, 0));
    doc.nodes[3] = cell_over("65535", "1");
    assert!(!can_build(&mut doc, 0));
    assert_eq!(doc.nodes[0].children, [1, 2]);
}

#[test]
fn rows_are_counted_in_sixteen_bits_and_lines_wrap_around() {
    let rows: Vec<usize> = vec![1; 65534];
    let mut doc = Document {
        nodes: vec![
            node(DisplayInside::Table, &rows),
            node(DisplayInside::TableRow, &[]),
            node(DisplayInside::TableRow, &[3]),
            cell(),
        ],
    };
    doc.nodes[0].children.push(2);
    assert!(can_build(&mut doc, 0));
    let (ctx, _) = build_table_context(&mut doc, 0);
    assert_eq!(ctx.style.row_count, 65535);
    assert_eq!(line(&ctx.cells[0]), -1);
    doc.nodes[0].children.push(1);
    assert!(!can_build(&mut doc, 0));
}

#[test]
fn the_grid_is_a_table_that_flows_densely_by_rows() {
    let (ctx, _) = build_table_context(&mut two_by_two(), 0);
    assert!(ctx.style.item_is_table);
    assert_eq!(ctx.style.auto_flow, AutoFlow::RowDense);
    assert!(ctx.style.auto_columns.is_empty());
    assert!(ctx.style.auto_rows.is_empty());
    assert!(ctx.computed_grid_info.is_none());
}

#[test]
fn cells_skip_columns_that_earlier_cells_span_into() {
    let mut doc = two_by_two();
    doc.nodes[3] = cell_over("1", "2");
    doc.nodes[2].children = vec![5];
    let mut table = Placement::new();
    collect_table_cells(&mut doc, 1, false, BorderCollapse::Separate, &mut table);
    collect_table_cells(&mut doc, 2, false, BorderCollapse::Separate, &mut table);
    assert_eq!(table.cells[2].node_id, 5);
    assert_eq!(table.cells[2].row, 2);
    assert_eq!(table.cells[2].col_start, 1);
    // The row itself counts one column.
    assert_eq!(table.col, 1);
}

#[test]
fn cells_take_the_first_gap_that_is_wide_enough() {
    // The second column is free in the second row, and so is all from the fourth on.
    let mut doc = Document {
        nodes: vec![
            node(DisplayInside::Table, &[1, 2]),
            node(DisplayInside::TableRow, &[3, 4, 5]),
            node(DisplayInside::TableRow, &[6, 7]),
            cell_over("1", "2"),
            cell(),
            cell_over("1", "9"),
            cell_over("2", "1"),
            cell(),
        ],
    };
    let (ctx, _) = build_table_context(&mut doc, 0);
    assert_eq!(
        places(&ctx),
        [
            (3, 1, 2, 0, 1),
            (4, 1, 1, 1, 1),
            (5, 1, 9, 2, 1),
            (6, 2, 1, 3, 2),
            (7, 2, 1, 1, 1)
        ]
    );
}

#[test]
fn cells_without_a_row_do_not_span_into_rows() {
    let mut doc = Document {
        nodes: vec![
            node(DisplayInside::Table, &[1, 2]),
            cell_over("1", "5"),
            node(DisplayInside::TableRow, &[3]),
            cell(),
        ],
    };
    let (ctx, _) = build_table_context(&mut doc, 0);
    assert_eq!(places(&ctx), [(1, 0, 5, 0, 1), (3, 1, 1, 0, 1)]);
}

#[test]
fn left_edges_are_counted_in_sixteen_bits() {
    let mut doc = two_by_two();
    doc.nodes[3] = cell_over("65000", "2");
    doc.nodes[5] = cell_over("535", "1");
    doc.nodes[2].children = vec![5];
    assert!(can_build(&mut doc, 0));
    doc.nodes[5] = cell_over("536", "1");
    assert!(!can_build(&mut doc, 0));
}

#[test]
fn groups_count_as_their_children_in_turn() {
    let table = |children: &[usize]| Document {
        nodes: vec![
            node(DisplayInside::Table, children),
            node(DisplayInside::TableFooterGroup, &[2, 3]),
            node(DisplayInside::TableRow, &[4]),
            node(DisplayInside::TableRow, &[5]),
            cell_over("1", "2"),
            cell(),
        ],
    };
    let (grouped, _) = build_table_context(&mut table(&[1]), 0);
    let (bare, _) = build_table_context(&mut table(&[2, 3]), 0);
    assert_eq!(grouped.cells, bare.cells);
    assert_eq!(grouped.rows, bare.rows);
    assert_eq!(grouped.style.columns, bare.style.columns);
}

/// The columns at which taffy's grid places the cells of a table.
fn grid_columns(ctx: &TableContext) -> Vec<u16> {
    let mut tree: taffy::TaffyTree<()> = taffy::TaffyTree::new();
    tree.disable_rounding();
    let cells: Vec<taffy::NodeId> = ctx
        .cells
        .iter()
        .map(|cell| {
            tree.new_leaf(taffy::Style {
                grid_column: taffy::Line {
                    start: taffy::style_helpers::auto(),
                    end: taffy::style_helpers::span(cell.colspan),
                },
                grid_row: taffy::Line {
                    start: taffy::style_helpers::line(line(cell)),
                    end: taffy::style_helpers::span(cell.rowspan),
                },
                ..taffy::Style::default()
            })
            .unwrap()
        })
        .collect();
    let root = tree
        .new_with_children(
            taffy::Style {
                display: taffy::Display::Grid,
                grid_auto_flow: taffy::GridAutoFlow::RowDense,
                grid_template_columns: vec![taffy::style_helpers::length(10.0); 40],
                grid_template_rows: vec![
                    taffy::style_helpers::length(10.0);
                    ctx.style.row_count as usize
                ],
                ..taffy::Style::default()
            },
            &cells,
        )
        .unwrap();
    let space = taffy::Size {
        width: taffy::AvailableSpace::MaxContent,
        height: taffy::AvailableSpace::MaxContent,
    };
    tree.compute_layout(root, space).unwrap();
    cells
        .iter()
        .map(|id| (tree.layout(*id).unwrap().location.x / 10.0).round() as u16)
        .collect()
}

#[test]
fn cells_stand_where_the_grid_places_them() {
    let mut state: u64 = 11;
    let mut next = |limit: u64| {
        state = state.wrapping_mul(6364136223846793005).wrapping_add(1442695040888963407);
        (state >> 33) % limit
    };
    for _ in 0..300 {
        let mut doc = Document {
            nodes: vec![node(DisplayInside::Table, &[])],
        };
        for _ in 0..1 + next(6) {
            let row = doc.nodes.len();
            doc.nodes[0].children.push(row);
            doc.nodes.push(node(DisplayInside::TableRow, &[]));
            for _ in 0..next(5) {
                let id = doc.nodes.len();
                doc.nodes[row].children.push(id);
                doc.nodes.push(cell_over(
                    &format!("{}", 1 + next(3)),
                    &format!("{}", 1 + next(4)),
                ));
            }
        }
        let (ctx, _) = build_table_context(&mut doc, 0);
        let ours: Vec<u16> = ctx.cells.iter().map(|cell| cell.col_start).collect();
        assert_eq!(ours, grid_columns(&ctx));
    }
}

#[test]
fn cells_have_an_automatic_width_and_column_in_the_grid() {
    let mut doc = two_by_two();
    doc.nodes[4] = cell_over("3", "2");
    set_width(&mut doc, 4, InlineSize::Percent(number(0.25)));
    let (ctx, _) = build_table_context(&mut doc, 0);
    assert_eq!(ctx.cells[1].specified_width, InlineSize::Percent(number(0.25)));
    assert_eq!(
        ctx.cells[1].style,
        CellStyle {
            column: GridPlace {
                start: GridLine::Auto,
                span: 3
            },
            row: GridPlace {
                start: GridLine::Line(1),
                span: 2
            },
            width: Track::Auto,
            borderless: false,
        }
    );
}
