//! Orphan-module detection for a single crate's source tree.
//!
//! The library works on an in-memory snapshot of the tree: a list of
//! source files, each a path together with its text. From the snapshot it
//! follows `mod` declarations from the entry points, builds the set of
//! reachable files, and reports every source file that is neither an entry
//! point nor reachable.

pub mod analyze;
pub mod decls;
pub mod laws;
pub mod lexord;
pub mod report;
pub mod resolve;
pub mod tree;
