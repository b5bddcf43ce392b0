//! Part-replacement statistics for a fleet of repair work orders.
//!
//! The library joins condition-code (part-replacement) observations against a
//! store of hierarchical work orders: every observation is resolved to the
//! top-level ancestor of the work order it names, a caller-supplied classifier
//! assigns that ancestor to at most one bucket, and a two-pass count produces,
//! for each (bucket, part number) pair, the number of matching observations
//! and the number of top-level work orders that classify to the same bucket.
//! A deterministic, totally ordered textual report is rendered from the
//! resulting map.

pub mod aggregate;
pub mod bucket;
pub mod classify;
pub mod laws;
pub mod render;
pub mod strings;
pub mod work_order;
