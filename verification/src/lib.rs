//! Verified core of a tree-structured task manager with time tracking.
//!
//! Each tree of tasks is stored as a nested-set index: every task carries an
//! interval `[left, right]`, and the intervals of two tasks of one tree are
//! always either strictly nested or disjoint.  The library maintains that
//! invariant under insertion, removal and reordering of subtrees, resolves
//! short id prefixes to unique identifiers, records time frames with at most
//! one open frame at a time, and aggregates frame overlap over a query window.

pub mod ansi;
pub mod laws;
pub mod notetaking;
pub mod store;
pub mod task;
pub mod timetracking;
pub mod tree;
pub mod types;

pub use types::ForestError;
pub use types::Uid;
