//! Deterministic, dry-run-first directory synchronization.
//!
//! - `hash`: FNV-1a 64-bit content hashing.
//! - `path_order`: what a relative path is, and the order in which relative
//!   paths are kept and listed.
//! - `keyed`: sequences of key/value pairs kept strictly sorted by key, and
//!   the map they stand for.
//! - `scan`: file entries and the scan of a directory, a map from relative
//!   path to entry kept in path order.
//! - `walk`: the decisions of a recursive scan, driven step by step by the
//!   caller that reads the file system.
//! - `diff`: comparing a source scan with a destination scan.
//! - `plan`: the operations that sync the destination, and their summary.
//! - `apply`: where each operation reads and writes, and the check that it
//!   stays under the destination.
//! - `cli`: command-line words and arguments.
//! - `text`: building the lines shown to the user.
//! - `laws`: properties that relate these functions to one another.

pub mod apply;
pub mod cli;
pub mod diff;
pub mod hash;
pub mod keyed;
pub mod laws;
pub mod path_order;
pub mod plan;
pub mod scan;
pub mod text;
pub mod walk;
