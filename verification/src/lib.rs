//! Statistics over the scopes that a profiler recorded.
//!
//! The scopes of every thread and frame are merged into one row for each instrumentation
//! point and thread, either in one flat list or nested as the scopes were. The rows carry
//! counts, bytes and times, can be sorted by any of them, and are laid out as a grid.
//!
//! - [`reader`] reads scope records out of a stream, through `puffin`'s reader.
//! - [`stats`] holds the rows and their figures.
//! - [`collect`] merges the scopes of a stream into the rows.
//! - [`order`] compares rows by a metric; [`sort`] sorts every level of the tree.
//! - [`process`] runs the whole pass over a batch of frames and totals the figures.
//! - [`rows`] lays the tree out as rows of a grid.
//! - [`columns`] holds the columns of the table and the display options.
//! - [`laws`] states what merging conserves.
//! - [`text`] compares strings.

pub mod collect;
pub mod columns;
pub mod laws;
pub mod order;
pub mod process;
pub mod reader;
pub mod rows;
pub mod sort;
pub mod stats;
pub mod text;
