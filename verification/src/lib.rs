//! Online study engine: statistical accumulators (mean/stdev/min/max and
//! percentiles) that consume a stream of measurement reports in a single
//! pass, a composite study combining both, a matrix study that builds a
//! two-level result table and renders it as an aligned text table, and a
//! bounded-iteration driver that tolerates missing reports.
//!
//! Measurement values are plain integers in raw units; callers that obtain
//! fractional measurements scale them to an integer unit before handing
//! them to the library.

pub mod composite;
pub mod error;
pub mod label;
pub mod matrix;
pub mod mean;
pub mod models;
pub mod pcts;
pub mod report;
pub mod select;
pub mod studies;
pub mod table;
pub mod text;
