//! A streaming pivot-table engine: composite-key grouping, typed value
//! parsing, and a family of online accumulators (count, sum, mean, median,
//! mode, min/max, range, distinct count), each with a verified contract.

pub mod aggfunc;
pub mod aggregation;
pub mod binpath;
pub mod cli_settings;
pub mod dates;
pub mod decimal;
pub mod errors;
pub mod parsing;
pub mod strutil;
