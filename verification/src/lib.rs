//! Distributed coordinator logic for time-series range queries.
//!
//! A query over an absolute time range is split into disjoint partitions,
//! one per worker node; the partial results coming back from the workers
//! are merged into a single deterministically ordered answer.  This crate
//! holds the partitioning, node-ordering and merging logic together with
//! the contracts that pin their behaviour down; the network plumbing
//! around it stays outside.

pub mod coordinator;
pub mod merge;
pub mod nodes;
pub mod order;
pub mod partition;
pub mod value;
