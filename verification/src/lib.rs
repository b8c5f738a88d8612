//! Offset tracking and commit scheduling for a consumer of partitioned
//! message streams.
//!
//! Worker code records the latest consumed offset of each topic partition in
//! an [`registry::AutoCommitRegistry`]. The registry decides, from the clock
//! readings it is handed, when the accumulated offsets are to be committed,
//! and describes each commit as a plain value for the caller to carry out.

pub mod offsets;
pub mod registry;
pub mod schedule;
pub mod store;
