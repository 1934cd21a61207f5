//! Filtering and aggregation of bucketed genome coverage data.

pub mod buckets;
pub mod filter;
pub mod filter_laws;
pub mod ids;
pub mod merge;
pub mod model;
