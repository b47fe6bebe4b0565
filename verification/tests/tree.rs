//! Tables under layout.

use table_layout::binary32::Binary32;
use table_layout::columns::{aggregate, column_widths, should_size, AvailableSpace, LayoutInput};
use table_layout::context::{AutoFlow, Spacing, TableContext, TableStyle};
use table_layout::document::{BorderCollapse, InlineSize};
use table_layout::placement::{CellStyle, GridLine, GridPlace, TableCell, Track};
use table_layout::tree::{Measurement, RequestedAxis, RunMode, SizingMode, TableTreeWrapper};

fn number(x: f32) -> Binary32 {
    Binary32::from_bits(x.to_bits())
}

fn numbers(items: &[f32]) -> Vec<Binary32> {
    items.iter().map(|x| number(*x)).collect()
}

fn floats(items: &[Binary32]) -> Vec<f32> {
    items.iter().map(|x| f32::from_bits(x.to_bits())).collect()
}

fn cell(node_id: usize, col_start: u16, colspan: u16, specified_width: InlineSize) -> TableCell {
    TableCell {
        node_id,
        row: 1,
        rowspan: 1,
        col_start,
        colspan,
        specified_width,
        style: CellStyle {
            column: GridPlace {
                start: GridLine::Auto,
                span: colspan,
            },
            row: GridPlace {
                start: GridLine::Line(1),
                span: 1,
            },
            width: Track::Auto,
            borderless: node_id == 80,
        },
    }
}

fn percent(x: f32) -> InlineSize {
    InlineSize::Percent(number(x))
}

fn table(width: InlineSize, columns: usize, cells: Vec<TableCell>) -> TableTreeWrapper {
    TableTreeWrapper::new(TableContext {
        style: TableStyle {
            item_is_table: true,
            auto_flow: AutoFlow::RowDense,
            auto_columns: vec![],
            auto_rows: vec![Track::Percent(number(0.5))],
            width,
            columns: vec![Track::Auto; columns],
            row_count: 1,
            gap_width: Spacing::Pixels(number(0.0)),
            gap_height: Spacing::Pixels(number(0.0)),
            frame: None,
        },
        cells,
        rows: vec![],
        computed_grid_info: None,
        border_style: None,
        border_collapse: BorderCollapse::Separate,
    })
}

fn input(known_width: Option<f32>, available_width: AvailableSpace) -> LayoutInput {
    LayoutInput {
        known_width: known_width.map(number),
        available_width,
        border_left: number(0.0),
        border_right: number(0.0),
        padding_left: number(0.0),
        padding_right: number(0.0),
        gap: number(0.0),
    }
}

fn definite(x: f32) -> AvailableSpace {
    AvailableSpace::Definite(number(x))
}

/// The widths of the columns after they were sized.
fn widths(table: &TableTreeWrapper) -> Vec<f32> {
    table
        .get_core_container_style()
        .columns
        .iter()
        .map(|track| match track {
            Track::Length(width) => f32::from_bits(width.to_bits()),
            _ => panic!("a column without a width"),
        })
        .collect()
}

fn prepared(
    mut table: TableTreeWrapper,
    min: &[f32],
    max: &[f32],
    inputs: LayoutInput,
) -> Vec<f32> {
    table.prepare_columns(&numbers(min), &numbers(max), inputs);
    widths(&table)
}

#[test]
fn plain_tables_are_left_to_the_grid() {
    let cells = vec![
        cell(1, 0, 1, InlineSize::Auto),
        cell(2, 1, 1, InlineSize::Length(number(9.0))),
        cell(3, 2, 0, InlineSize::Calculated),
    ];
    assert!(!should_size(&cells));
    let mut table = table(InlineSize::Auto, 3, cells);
    assert!(!table.needs_measuring());
    table.prepare_columns(&[], &[], input(Some(100.0), AvailableSpace::MaxContent));
    assert!(table.style_override.is_none());
    assert_eq!(table.get_core_container_style().columns, [Track::Auto; 3]);
}

#[test]
fn percentages_and_spans_need_sizing() {
    assert!(should_size(&[cell(1, 0, 1, percent(0.0))]));
    assert!(should_size(&[
        cell(1, 0, 1, InlineSize::Auto),
        cell(2, 1, 2, InlineSize::Auto)
    ]));
    assert!(!should_size(&[]));
}

#[test]
fn tables_without_columns_are_left_to_the_grid() {
    let mut table = table(InlineSize::Auto, 0, vec![cell(1, 0, 2, InlineSize::Auto)]);
    assert!(!table.needs_measuring());
    table.prepare_columns(&[], &[], input(Some(100.0), AvailableSpace::MaxContent));
    assert!(table.style_override.is_none());
}

#[test]
fn a_settled_width_is_filled() {
    // A column of ninety percent, another one, and a long text over both.
    let cells = || {
        vec![
            cell(1, 0, 1, percent(0.9)),
            cell(2, 1, 1, InlineSize::Auto),
            cell(3, 0, 2, InlineSize::Auto),
        ]
    };
    let measured = [2.0, 2.0, 426.0];
    let got = prepared(
        table(InlineSize::Auto, 2, cells()),
        &measured,
        &measured,
        input(Some(400.0), definite(1000.0)),
    );
    assert_eq!(got, [360.0, 40.0]);
    // The same width as the table's own.
    let got = prepared(
        table(InlineSize::Length(number(400.0)), 2, cells()),
        &measured,
        &measured,
        input(None, definite(1000.0)),
    );
    assert_eq!(got, [360.0, 40.0]);
    // And as a part of the space.
    let got = prepared(
        table(percent(0.5), 2, cells()),
        &measured,
        &measured,
        input(None, definite(800.0)),
    );
    assert_eq!(got, [360.0, 40.0]);
    // However long the text is.
    let got = prepared(
        table(InlineSize::Auto, 2, cells()),
        &[2.0, 2.0, 9000.0],
        &[2.0, 2.0, 9000.0],
        input(Some(400.0), definite(1000.0)),
    );
    assert_eq!(got, [360.0, 40.0]);
}

#[test]
fn insets_are_taken_from_the_width() {
    let mut inputs = input(Some(400.0), definite(1000.0));
    inputs.border_left = number(1.0);
    inputs.border_right = number(2.0);
    inputs.padding_left = number(3.0);
    inputs.padding_right = number(4.0);
    inputs.gap = number(5.0);
    let cells = vec![
        cell(1, 0, 1, percent(0.5)),
        cell(2, 1, 1, InlineSize::Auto),
        cell(3, 2, 1, InlineSize::Auto),
    ];
    let got = prepared(
        table(InlineSize::Auto, 3, cells),
        &[0.0; 3],
        &[0.0; 3],
        inputs,
    );
    assert_eq!(got, [190.0, 95.0, 95.0]);
    assert_eq!(got.iter().sum::<f32>() + 10.0 + 10.0, 400.0);
}

#[test]
fn insets_wider_than_the_table_leave_nothing() {
    let mut inputs = input(Some(10.0), AvailableSpace::MaxContent);
    inputs.border_left = number(50.0);
    let got = prepared(
        table(InlineSize::Auto, 1, vec![cell(1, 0, 1, percent(1.0))]),
        &[7.0],
        &[9.0],
        inputs,
    );
    assert_eq!(got, [7.0]);
}

#[test]
fn measuring_a_table_counts_spanning_cells() {
    let cells = || {
        vec![
            cell(1, 0, 1, InlineSize::Auto),
            cell(2, 1, 1, percent(0.75)),
            cell(3, 0, 2, InlineSize::Auto),
        ]
    };
    let min = [10.0, 20.0, 50.0];
    let max = [30.0, 20.0, 90.0];
    let got = prepared(
        table(InlineSize::Auto, 2, cells()),
        &min,
        &max,
        input(None, AvailableSpace::MinContent),
    );
    assert_eq!(got, [20.0, 30.0]);
    let got = prepared(
        table(InlineSize::Auto, 2, cells()),
        &min,
        &max,
        input(None, AvailableSpace::MaxContent),
    );
    assert_eq!(got, [50.0, 40.0]);
    // A width of its own does not count where there is no space.
    let got = prepared(
        table(InlineSize::Length(number(500.0)), 2, cells()),
        &min,
        &max,
        input(None, AvailableSpace::MinContent),
    );
    assert_eq!(got, [20.0, 30.0]);
}

#[test]
fn a_table_without_a_width_shrinks_to_fit() {
    let cells = || {
        vec![
            cell(1, 0, 1, InlineSize::Auto),
            cell(2, 1, 1, InlineSize::Auto),
            cell(3, 0, 2, InlineSize::Auto),
        ]
    };
    let min = [10.0, 20.0, 0.0];
    let max = [30.0, 40.0, 100.0];
    for own in [InlineSize::Auto, InlineSize::Calculated] {
        // The widths without wrapping fit.
        let got = prepared(
            table(own, 2, cells()),
            &min,
            &max,
            input(None, definite(100.0)),
        );
        assert_eq!(got, [45.0, 55.0]);
        // They do not, and the space is filled.
        let got = prepared(
            table(own, 2, cells()),
            &min,
            &max,
            input(None, definite(90.0)),
        );
        assert_eq!(got, [40.0, 50.0]);
    }
}

#[test]
fn cells_give_their_columns_sizes() {
    let cells = [
        cell(1, 0, 1, percent(0.25)),
        cell(2, 0, 1, percent(0.5)),
        cell(3, 1, 0, InlineSize::Auto),
        cell(4, 9, 1, InlineSize::Auto),
    ];
    let sizes = aggregate(
        &cells,
        &numbers(&[10.0, 5.0, 30.0, 99.0]),
        &numbers(&[11.0, 40.0, 20.0, 99.0]),
        2,
    );
    assert_eq!(floats(&sizes.min), [10.0, 30.0]);
    // No column is narrower without wrapping than with it.
    assert_eq!(floats(&sizes.max), [40.0, 30.0]);
    assert_eq!(floats(&sizes.pct), [0.5, 0.0]);
    assert_eq!(floats(&sizes.full_min), [10.0, 30.0]);
    assert_eq!(floats(&sizes.full_max), [40.0, 30.0]);
}

#[test]
fn smaller_spans_widen_columns_first() {
    // The cell over two columns comes last, and widens the first two to 10 each before
    // the cell over three columns adds 1 to each of them.
    let cells = [
        cell(1, 0, 3, percent(0.75)),
        cell(2, 0, 2, percent(0.5)),
    ];
    let sizes = aggregate(&cells, &numbers(&[23.0, 20.0]), &numbers(&[0.0, 0.0]), 3);
    assert_eq!(floats(&sizes.full_min), [11.0, 11.0, 1.0]);
    assert_eq!(floats(&sizes.full_max), [11.0, 11.0, 1.0]);
    assert_eq!(floats(&sizes.min), [0.0, 0.0, 0.0]);
    let third = 0.25f32 / 3.0;
    assert_eq!(floats(&sizes.pct), [0.25 + third, 0.25 + third, third]);
}

#[test]
fn equal_spans_widen_columns_in_order() {
    let cells = [
        cell(1, 0, 2, InlineSize::Auto),
        cell(2, 1, 2, InlineSize::Auto),
    ];
    let sizes = aggregate(&cells, &numbers(&[20.0, 30.0]), &numbers(&[0.0, 0.0]), 3);
    assert_eq!(floats(&sizes.full_min), [10.0, 20.0, 10.0]);
}

#[test]
fn spans_end_with_the_table() {
    let cells = [
        cell(1, 1, 65535, InlineSize::Auto),
        cell(2, 7, 2, InlineSize::Auto),
    ];
    let sizes = aggregate(&cells, &numbers(&[20.0, 90.0]), &numbers(&[0.0, 0.0]), 3);
    assert_eq!(floats(&sizes.full_min), [0.0, 10.0, 10.0]);
}

#[test]
fn spanning_cells_make_no_column_narrower() {
    let cells = [
        cell(1, 0, 1, InlineSize::Auto),
        cell(2, 1, 1, InlineSize::Auto),
        cell(3, 0, 2, InlineSize::Auto),
    ];
    let sizes = aggregate(
        &cells,
        &numbers(&[100.0, 50.0, 20.0]),
        &numbers(&[100.0, 50.0, 20.0]),
        2,
    );
    assert_eq!(floats(&sizes.full_min), [100.0, 50.0]);
    assert_eq!(floats(&sizes.full_max), [100.0, 50.0]);
}

#[test]
fn sizes_make_widths() {
    let cells = [cell(1, 0, 1, percent(0.5)), cell(2, 1, 1, InlineSize::Auto)];
    let sizes = aggregate(&cells, &numbers(&[1.0, 2.0]), &numbers(&[3.0, 4.0]), 2);
    let got = column_widths(
        &sizes,
        InlineSize::Auto,
        input(Some(100.0), AvailableSpace::MaxContent),
    );
    assert_eq!(floats(&got), [50.0, 50.0]);
}

#[test]
fn sizing_keeps_the_rest_of_the_grid() {
    let mut table = table(percent(0.5), 1, vec![cell(1, 0, 1, percent(1.0))]);
    table.ctx.style.gap_width = Spacing::AppUnits(60);
    table.prepare_columns(
        &numbers(&[1.0]),
        &numbers(&[1.0]),
        input(Some(100.0), AvailableSpace::MaxContent),
    );
    let style = table.get_grid_container_style();
    assert_eq!(style.columns, [Track::Length(number(100.0))]);
    assert_eq!(style.width, percent(0.5));
    assert_eq!(style.row_count, 1);
    assert_eq!(style.gap_width, Spacing::AppUnits(60));
    assert_eq!(style.frame, None);
    assert!(style.item_is_table);
    assert_eq!(style.auto_flow, AutoFlow::RowDense);
    assert!(style.auto_columns.is_empty());
    assert_eq!(style.auto_rows, [Track::Percent(number(0.5))]);
    assert_eq!(table.ctx.style.columns, [Track::Auto]);
}

#[test]
fn children_are_numbered_by_their_place() {
    let table = table(
        InlineSize::Auto,
        2,
        vec![
            cell(70, 0, 1, InlineSize::Auto),
            cell(80, 1, 1, percent(0.5)),
            cell(90, 2, 1, InlineSize::Auto),
        ],
    );
    let mut ids = table.child_ids();
    assert_eq!(ids.next(), Some(0));
    assert_eq!(ids.next(), Some(1));
    assert_eq!(ids.next(), Some(2));
    assert_eq!(ids.next(), None);
    assert_eq!(ids.next(), None);
    assert_eq!(table.child_count(), 3);
    assert_eq!(table.get_child_id(1), 1);
    assert_eq!(table.get_child_id(usize::MAX), usize::MAX as u64);
    assert_eq!(table.child_node(2), 90);
    assert_eq!(*table.get_grid_child_style(1), table.ctx.cells[1].style);
    assert!(table.get_grid_child_style(1).borderless);
    assert_eq!(table.get_grid_child_style(1).width, Track::Auto);
    assert_eq!(table.get_grid_child_style(1).column.start, GridLine::Auto);
    assert!(!table.get_grid_child_style(2).borderless);
}

#[test]
fn children_are_numbered_as_taffy_does() {
    let table = table(
        InlineSize::Auto,
        1,
        vec![cell(70, 0, 1, InlineSize::Auto); 5],
    );
    let mut ids = table.child_ids();
    for index in 0..5usize {
        let id = taffy::NodeId::from(index);
        assert_eq!(ids.next(), Some(u64::from(id)));
        assert_eq!(table.get_child_id(index), u64::from(id));
    }
}

#[test]
fn cells_are_measured_without_a_width_around_them() {
    let table = table(
        InlineSize::Auto,
        1,
        vec![
            cell(70, 0, 1, InlineSize::Auto),
            cell(80, 0, 1, percent(0.5)),
        ],
    );
    for width in [AvailableSpace::MinContent, AvailableSpace::MaxContent] {
        assert_eq!(
            table.measure_cell(1, width),
            Measurement {
                node_id: 80,
                run_mode: RunMode::ComputeSize,
                sizing_mode: SizingMode::InherentSize,
                axis: RequestedAxis::Horizontal,
                known_width: None,
                known_height: None,
                parent_width: None,
                parent_height: None,
                available_width: width,
                available_height: AvailableSpace::MaxContent,
                collapsible_top: false,
                collapsible_bottom: false,
            }
        );
    }
}

#[test]
fn grid_information_is_kept() {
    let mut table = table(InlineSize::Auto, 1, vec![cell(70, 0, 1, InlineSize::Auto)]);
    assert!(table.ctx.computed_grid_info.is_none());
    let tracks = taffy::DetailedGridTracksInfo {
        negative_implicit_tracks: 0,
        explicit_tracks: 1,
        positive_implicit_tracks: 0,
        gutters: vec![],
        sizes: vec![7.0],
    };
    let info = taffy::DetailedGridInfo {
        rows: tracks.clone(),
        columns: tracks,
        items: vec![],
    };
    table.set_detailed_grid_info(info.clone());
    assert_eq!(table.ctx.computed_grid_info, Some(info));
    assert_eq!(table.child_count(), 1);
    assert!(table.style_override.is_none());
}

/// The gap behind a number.
fn gap(x: f32) -> f64 {
    f32::from_bits(x.to_bits() + 1) as f64 - x as f64
}

fn exact(items: &[f32]) -> f64 {
    items.iter().map(|x| *x as f64).sum()
}

#[test]
fn spanned_columns_hold_their_cells_up_to_rounding() {
    for k in 1..200 {
        let need = 33.3 + 0.7 * k as f32;
        let cells = [
            cell(1, 1, 1, InlineSize::Auto),
            cell(2, 0, 3, InlineSize::Auto),
            cell(3, 2, 2, InlineSize::Auto),
        ];
        let min = [10.1, need, 7.7];
        let max = [20.2, need + 11.1, 9.9];
        let sizes = aggregate(&cells, &numbers(&min), &numbers(&max), 4);
        let least = exact(&floats(&sizes.full_min)[0..3]);
        let most = exact(&floats(&sizes.full_max)[0..3]);
        assert!(need as f64 - least <= 15.0 * gap(need));
        assert!((need + 11.1) as f64 - most <= 15.0 * gap(need + 11.1));
        assert!(7.7f32 as f64 - exact(&floats(&sizes.full_min)[2..4]) <= 10.0 * gap(7.7));
    }
}

#[test]
fn columns_and_insets_fill_the_table_up_to_rounding() {
    let cells = || {
        vec![
            cell(1, 0, 1, percent(0.33)),
            cell(2, 1, 1, InlineSize::Auto),
            cell(3, 2, 1, InlineSize::Auto),
        ]
    };
    for k in 0..200 {
        let width = 100.0 + 1.3 * k as f32;
        let mut inputs = input(Some(width), definite(1000.0));
        inputs.border_left = number(0.7);
        inputs.padding_right = number(1.9);
        let got = prepared(
            table(InlineSize::Auto, 3, cells()),
            &[11.1, 22.2, 33.3],
            &[44.4, 33.3, 55.5],
            inputs,
        );
        let all = exact(&got) + (0.7f32 + 1.9f32) as f64;
        let error = (64.0 * 3.0 + 1.0) * gap(width) + 0.01;
        assert!((all - width as f64).abs() <= error);
    }
}

#[test]
fn a_table_that_shrinks_to_fit_takes_no_more_than_the_space_up_to_rounding() {
    let cells = || {
        vec![
            cell(1, 0, 1, InlineSize::Auto),
            cell(2, 1, 1, InlineSize::Auto),
            cell(3, 0, 2, InlineSize::Auto),
        ]
    };
    for k in 0..200 {
        let space = 20.0 + 0.9 * k as f32;
        let got = prepared(
            table(InlineSize::Auto, 2, cells()),
            &[10.1, 20.2, 3.3],
            &[30.3, 40.4, 100.1],
            input(None, definite(space)),
        );
        let least = 10.1f32 as f64 + 20.2f32 as f64;
        let error = 64.0 * 2.0 * gap(space) + 0.01;
        assert!(exact(&got) - (space as f64).max(least) <= error);
    }
}
