//! One-directional directory synchronization, as a verified planning library.
//!
//! The library models a directory tree as an immutable snapshot: a mapping
//! from relative path (a sequence of byte-string components) to entry
//! metadata.  From a source snapshot and a destination snapshot it computes
//! the ordered list of filesystem actions that make the destination's tree
//! match the source's: create missing directories and files, then delete
//! extraneous files, then delete extraneous directories deepest-first.
//! Walking the real filesystem and applying the actions is left to the
//! surrounding program; everything that decides *what* to do is here,
//! with contracts.

pub mod config;
pub mod noise;
pub mod plan;
pub mod snapshot;
