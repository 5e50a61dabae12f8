//! Engine for running one git operation across many checkouts.
//!
//! The library resolves a small registry of checkout and container paths,
//! together with a snapshot of the directories on disk, into a sorted,
//! deduplicated working set of checkout roots; filters that set by the
//! observed state of each checkout; and drives a fan-out execution that
//! isolates per-checkout failures. All filesystem reading, repository
//! inspection and process spawning happen outside the library and are handed
//! in as plain values, so every decision the engine makes is verified.

pub mod fanout;
pub mod filter;
pub mod fstree;
pub mod paths;
pub mod registry;
pub mod scan;
pub mod state;
pub mod util;
pub mod workset;
