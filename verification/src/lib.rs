//! Static detection of cyclic header dependencies.
//!
//! The crate scans the textual lines of header files for quoted inclusion
//! directives, resolves each referenced header against the directory of the
//! referring file and an ordered list of fallback search roots, assembles a
//! file-level dependency graph, and reports the first directed cycle
//! reachable from each file.
//!
//! Paths and lines are plain character vectors; reading directories and
//! files, and testing which candidate paths exist on disk, is left to the
//! caller, which hands the results in as values.

pub mod extract;
pub mod resolve;
pub mod graph;
pub mod cycle;
pub mod laws;
