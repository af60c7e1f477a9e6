//! An append-only update-trace engine: unsorted streams of timestamped
//! key deltas are consolidated, sealed into immutable sorted batches,
//! organised as a log-structured spine of batches with size-tiered merging,
//! and navigated through cursors that unify many batches into one view.
pub mod batcher;
pub mod canon;
pub mod consolidate;
pub mod cursor;
pub mod frontier;
pub mod laws;
pub mod layer;
pub mod sorter;
pub mod spine;
pub mod update;
