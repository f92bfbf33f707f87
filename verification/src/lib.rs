//! Auditing and repairing feature propagation in a package's dependency tree.
//!
//! The crate checks that whenever a package turns on one of a set of tracked
//! features, every dependency that offers the same feature is told to turn it
//! on too, and it rewrites manifests so that the missing forwarding entries
//! appear where they belong.

pub mod analyzer;
pub mod cli;
pub mod graph;
pub mod ledger;
pub mod manifest;
pub mod problem;
pub mod processor;
pub mod resolver;
pub mod shared;
pub mod sorter;
pub mod text;
pub mod util;
pub mod walk;
