//! Tables: their cells, their grid and the widths of their columns.
//!
//! A table is built from a styled [`document`]: a [`walk`] finds its rows and cells,
//! [`placement`] puts them in rows and columns, and [`context`] makes a grid of them.
//! Under layout the table is a [`tree`] of cells. Where a cell has a percentage or
//! spans columns, the [`columns`] are sized from what the cells measure, and a definite
//! width is [`distribute`]d across them. Other tables are left to the grid.
//!
//! Widths are [`binary32`] numbers, whose [`operations`] are computed with integers and
//! proved to be [`rounding`] correctly. The rules of column sizing are stated over any
//! kind of [`number`]. What they promise is proved in [`laws`] for any kind, in
//! [`exact`] for real numbers, and in [`rounded`], [`monotone`], [`sums`],
//! [`reordered`] and [`tables`] for binary32 numbers. [`sizing`] tells the sizes of
//! columns by their cells, [`shares`] tells their widths by their sizes, and [`offers`]
//! tells where the width of a table comes from.
//! What holds of rows and cells is proved in [`order`]. [`reading`] tells what is found in
//! a document, and [`building`] tells what is made of it.

pub mod binary32;
pub mod building;
pub mod columns;
pub mod context;
pub mod distribute;
pub mod document;
pub mod exact;
pub mod laws;
pub mod monotone;
pub mod number;
pub mod offers;
pub mod operations;
pub mod order;
pub mod placement;
pub mod reading;
pub mod reordered;
pub mod rounded;
pub mod rounding;
pub mod shares;
pub mod sizing;
pub mod spans;
pub mod sums;
pub mod tables;
pub mod tree;
pub mod walk;
