//! Aggregation of weather-station measurements, one `name;value` line each,
//! into per-station count, minimum, maximum and sum.
//!
//! - `record`: the running statistics of one station and their algebra.
//! - `number`: branch-free parsing of a short measurement from one word.
//! - `swar`: sixteen-byte words of the input and the flags of a byte in them.
//! - `lines`: the grammar of the input and the statistics of its regions.
//! - `scan`: searching the input a word at a time.
//! - `custom_map`: the open-addressing table of stations, keyed by ranges of the input.
//! - `capacity`: why the table never fills up while a slice is aggregated.
//! - `accumulate`: adding a region to a table, byte by byte.
//! - `data_slice`: aggregating a slice in three interleaved parts, and cutting the input into slices.
//! - `totals`: merging tables into totals sorted by station name.

pub mod record;
pub mod number;
pub mod swar;
pub mod custom_map;
pub mod lines;
pub mod line_laws;
pub mod scan;
pub mod capacity;
pub mod accumulate;
pub mod data_slice;
pub mod totals;
